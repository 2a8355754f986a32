//! A small cloud project observed at t1, mutated, and observed again at t2.

use psyrag::gcp::ingest_snapshot;
use psyrag::graph::TemporalGraph;
use psyrag::json::Json;
use psyrag::reach::Direction;

const T1: i64 = 1_000;
const T2: i64 = 2_000;

const PROJECT: &str = r#"{
    "name": "//cloudresourcemanager.googleapis.com/projects/lumili-prod",
    "assetType": "cloudresourcemanager.googleapis.com/Project",
    "ancestors": ["projects/lumili-prod", "organizations/999"],
    "resource": { "data": { "projectId": "lumili-prod" } }
}"#;

const NETWORK: &str = r#"{
    "name": "//compute.googleapis.com/projects/lumili-prod/global/networks/vpc-main",
    "assetType": "compute.googleapis.com/Network",
    "ancestors": ["projects/lumili-prod", "organizations/999"],
    "resource": { "data": { "name": "vpc-main" } }
}"#;

const DATABASE: &str = r#"{
    "name": "//sqladmin.googleapis.com/projects/lumili-prod/instances/db-main",
    "assetType": "sqladmin.googleapis.com/Instance",
    "ancestors": ["projects/lumili-prod", "organizations/999"],
    "resource": { "data": {
        "name": "db-main",
        "settings": { "ipConfiguration": {
            "privateNetwork": "//compute.googleapis.com/projects/lumili-prod/global/networks/vpc-main"
        } }
    } }
}"#;

fn snapshot(subnet: &str, version: &str) -> String {
    let sub = r#"{
        "name": "//compute.googleapis.com/projects/lumili-prod/regions/me-west1/subnetworks/SUBNET",
        "assetType": "compute.googleapis.com/Subnetwork",
        "ancestors": ["projects/lumili-prod", "organizations/999"],
        "resource": { "data": {
            "name": "SUBNET",
            "network": "https://www.googleapis.com/compute/v1/projects/lumili-prod/global/networks/vpc-main"
        } }
    }"#
    .replace("SUBNET", subnet);
    let api = r#"{
        "name": "//run.googleapis.com/projects/lumili-prod/locations/me-west1/services/api",
        "assetType": "run.googleapis.com/Service",
        "ancestors": ["projects/lumili-prod", "organizations/999"],
        "resource": { "data": {
            "name": "api",
            "template": {
                "vpcAccess": {
                    "networkInterfaces": [{
                        "subnetwork": "//compute.googleapis.com/projects/lumili-prod/regions/me-west1/subnetworks/SUBNET"
                    }]
                }
            },
            "image": "me-west1-docker.pkg.dev/lumili-prod/app/api:VERSION"
        } }
    }"#
    .replace("SUBNET", subnet)
    .replace("VERSION", version);
    format!("[{PROJECT},{NETWORK},{sub},{api},{DATABASE}]")
}

const SUBNET_A: &str =
    "//compute.googleapis.com/projects/lumili-prod/regions/me-west1/subnetworks/subnet-a";
const VPC: &str = "//compute.googleapis.com/projects/lumili-prod/global/networks/vpc-main";
const API: &str = "//run.googleapis.com/projects/lumili-prod/locations/me-west1/services/api";
const DB: &str = "//sqladmin.googleapis.com/projects/lumili-prod/instances/db-main";

fn build() -> TemporalGraph {
    let mut g = TemporalGraph::new();
    let pruned_t1 = ingest_snapshot(&mut g, &snapshot("subnet-a", "v1"), T1).unwrap();
    assert!(pruned_t1.is_empty());
    let pruned_t2 = ingest_snapshot(&mut g, &snapshot("subnet-b", "v2"), T2).unwrap();
    assert_eq!(pruned_t2, vec![SUBNET_A.to_string()]);
    g
}

#[test]
fn placeholder_upgraded_by_real_record() {
    let g = build();
    let id = g.id_of(VPC).unwrap();
    let node = g.node(id);
    assert!(!node.placeholder);
    assert_eq!(
        g.types.resolve(node.type_id),
        "compute.googleapis.com/Network"
    );
}

#[test]
fn as_of_and_zombie_pruning() {
    let g = build();
    let id = g.id_of(SUBNET_A).unwrap();
    assert!(g.node(id).alive_at(T1 + 1));
    assert!(!g.node(id).alive_at(T2 + 1));
}

#[test]
fn diff_answers_what_changed() {
    let g = build();
    let d = g.diff(T1 + 1, T2 + 1);
    assert!(d.nodes_removed.contains(&SUBNET_A.to_string()));
    assert!(d.nodes_added.iter().any(|n| n.contains("subnet-b")));
    assert!(d.nodes_changed.contains(&API.to_string()));
    assert!(d.edges_removed.iter().any(|e| e.contains("subnet-a")));
    assert!(d.edges_added.iter().any(|e| e.contains("subnet-b")));
    assert!(g.diff(T2 + 1, T2 + 2).is_empty());
}

#[test]
fn blast_radius_upstream_from_db() {
    let g = build();
    let hit = g.blast_radius(VPC, T1 + 1, Direction::Up, 5);
    let names: Vec<&str> = hit.iter().map(|r| r.node.as_str()).collect();
    assert!(names.contains(&SUBNET_A));
    assert!(names.contains(&DB));
    assert!(names.contains(&API));
    let api_hit = hit.iter().find(|r| r.node == API).unwrap();
    assert_eq!(api_hit.depth, 2);
    assert!(api_hit.path.contains("REFERENCES"));
    assert!(api_hit.path.contains(SUBNET_A));
}

#[test]
fn blast_radius_is_temporal() {
    let g = build();
    let hit = g.blast_radius(API, T2 + 1, Direction::Down, 5);
    let names: Vec<&str> = hit.iter().map(|r| r.node.as_str()).collect();
    assert!(names.iter().any(|n| n.contains("subnet-b")));
    assert!(!names.contains(&SUBNET_A));
}

#[test]
fn cycles_do_not_hang() {
    let mut g = TemporalGraph::new();
    let a = g.observe_node("a", "t/x", Json::Obj(vec![]), 1);
    let b = g.observe_node("b", "t/x", Json::Obj(vec![]), 1);
    g.observe_edge(a, b, "PEERS_WITH", 1);
    g.observe_edge(b, a, "PEERS_WITH", 1);
    let hit = g.blast_radius("a", 2, Direction::Both, 10);
    assert_eq!(hit.len(), 1);
    assert_eq!(hit[0].node, "b");
}

#[test]
fn scale_smoke() {
    let mut g = TemporalGraph::new();
    let n_projects: usize = 200;
    let per_project: usize = 1000;
    let t1 = 1_000;
    let t2 = 2_000;
    let image = |v: String| Json::Obj(vec![("image".to_string(), Json::Str(v))]);
    for p in 0..n_projects {
        let proj = format!("//crm/projects/p{p}");
        let pid = g.observe_node(&proj, "crm/Project", Json::Null, t1);
        let vpc = format!("//compute/p{p}/networks/vpc");
        let vid = g.observe_node(&vpc, "compute/Network", Json::Null, t1);
        g.observe_edge(pid, vid, "CONTAINS", t1);
        for i in 0..per_project {
            let name = format!("//run/p{p}/services/s{i}");
            let sid = g.observe_node(&name, "run/Service", image(format!("img:v{}", i % 3)), t1);
            g.observe_edge(pid, sid, "CONTAINS", t1);
            g.observe_edge(sid, vid, "REFERENCES", t1);
        }
    }
    for p in 0..n_projects {
        for i in (0..per_project).step_by(100) {
            let name = format!("//run/p{p}/services/s{i}");
            g.observe_node(&name, "run/Service", image("img:vNEW".to_string()), t2);
        }
    }
    let d = g.diff(t1 + 1, t2 + 1);
    assert_eq!(d.nodes_changed.len(), n_projects * (per_project / 100));
    let hit = g.blast_radius("//compute/p0/networks/vpc", t2 + 1, Direction::Up, 3);
    assert!(hit.len() >= per_project);
}
