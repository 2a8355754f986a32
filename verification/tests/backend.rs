//! A store of graph and weights, and the salience of its edges.

use psyrag::backend::{EdgeState, GraphBackend, InMemoryBackend};
use psyrag::entity::{entity_ops, ingest_entities_mem, parse_entities};
use psyrag::fnv::{stable_edge_key, stable_key_of};
use psyrag::graph::{Op, TemporalGraph};
use psyrag::salience::{
    alive_out, budgeted, check_sidecar, consolidation_stats, count_live, edge_id, find_conflicts,
    live_out, match_keys, protection, prune, ranked, sleep_marks, touchable, trusted_by, Spreading,
};
use psyrag::sort::sorted;

fn seed(b: &mut InMemoryBackend) {
    let ents = parse_entities(
        r#"[{"name":"gw","type":"t","origin":"sys","edges":[
              {"dst":"a","kind":"CALLS"},{"dst":"b","kind":"CALLS"}]},
            {"name":"a","type":"t","edges":[{"dst":"deep","kind":"CALLS"}]},
            {"name":"island","type":"t","edges":[{"dst":"far","kind":"REL"}]}]"#,
    )
    .unwrap();
    for e in &ents {
        let (ops, _) = entity_ops(e, 1000, None);
        b.append_ops(&ops).unwrap();
    }
    b.checkpoint().unwrap();
}

fn seeds(l: &[&str]) -> Vec<String> {
    l.iter().map(|s| s.to_string()).collect()
}

#[test]
fn neighborhood_is_one_call_and_horizon_bounded() {
    let mut b = InMemoryBackend::new();
    seed(&mut b);
    let sub = b.neighborhood(&seeds(&["gw"]), 1, 2000).unwrap();
    assert!(sub.id_of("gw").is_some() && sub.id_of("a").is_some() && sub.id_of("b").is_some());
    assert!(sub.id_of("deep").is_none(), "outside horizon is absent");
    assert!(sub.id_of("island").is_none() && sub.id_of("far").is_none());
    let gw = sub.id_of("gw").unwrap();
    assert_eq!(sub.node_origin_at(gw, 2000), "sys");
    let sub2 = b.neighborhood(&seeds(&["gw"]), 2, 2000).unwrap();
    assert!(sub2.id_of("deep").is_some());
}

#[test]
fn neighborhood_has_what_is_near_and_nothing_else() {
    let mut b = InMemoryBackend::new();
    seed(&mut b);
    let sub = b.neighborhood(&seeds(&["gw", "nobody"]), 1, 2000).unwrap();
    let names: Vec<&str> = (0..sub.node_count()).map(|i| sub.node_name(i as u32)).collect();
    assert_eq!(names, vec!["gw", "a", "b"]);
    assert_eq!(sub.edge_count(), 2);
    for eid in 0..sub.edge_count() {
        let e = sub.edge(eid as u32);
        assert_eq!(sub.node_name(e.src), "gw");
        assert_eq!(sub.node_name(e.dst), ["a", "b"][eid]);
        assert_eq!((e.valid_from, e.valid_to), (1000, i64::MAX));
    }
    // Before anything was observed nothing is near.
    assert_eq!(b.neighborhood(&seeds(&["gw"]), 2, 999).unwrap().node_count(), 0);
}

#[test]
fn stable_keys_agree_between_store_and_subgraph() {
    let mut b = InMemoryBackend::new();
    seed(&mut b);
    let sub = b.neighborhood(&seeds(&["gw"]), 1, 2000).unwrap();
    let sub_gw = sub.id_of("gw").unwrap();
    let full_gw = b.graph().id_of("gw").unwrap();
    let sub_key = stable_edge_key(&sub, sub.out_edge_ids(sub_gw)[0]);
    let full_keys: Vec<u64> = b
        .graph()
        .out_edge_ids(full_gw)
        .iter()
        .map(|&e| stable_edge_key(b.graph(), e))
        .collect();
    assert!(full_keys.contains(&sub_key), "subgraph key {sub_key} not found in store keys");
    assert_eq!(sub_key, stable_key_of("gw", "a", "CALLS", 1000));
}

#[test]
fn weights_roundtrip_by_stable_key() {
    let mut b = InMemoryBackend::new();
    seed(&mut b);
    let g = b.graph();
    let gw = g.id_of("gw").unwrap();
    let k = stable_edge_key(g, g.out_edge_ids(gw)[0]);
    let state = EdgeState { w_bits: 0.83f32.to_bits(), t_last: 5000 };
    b.flush_weights(&vec![(k, state)]).unwrap();
    b.checkpoint().unwrap();
    let loaded = b.load_weights(&vec![k, 0xDEAD]).unwrap();
    let got = loaded.get(&k).unwrap();
    assert_eq!(f32::from_bits(got.w_bits), 0.83);
    assert_eq!(got.t_last, 5000);
    assert!(!loaded.contains_key(&0xDEAD), "absent keys stay absent");
}

fn hub_graph() -> TemporalGraph {
    let json = r#"[
      {"name":"hub","type":"svc/Hub","edges":[
        {"dst":"a","kind":"CALLS"},{"dst":"b","kind":"CALLS"},
        {"dst":"c","kind":"CALLS"},{"dst":"d","kind":"CALLS"},
        {"dst":"e","kind":"CALLS"}]},
      {"name":"a","type":"svc/S","edges":[{"dst":"f","kind":"CALLS"}]}
    ]"#;
    let mut g = TemporalGraph::new();
    ingest_entities_mem(&mut g, json, 0, false).unwrap();
    g
}

/// A layer of weights as the program keeps it, without decay.
fn act_over(g: &TemporalGraph, start: &[&str], depth: u32, w: &[f32], t: i64) -> Vec<f32> {
    let mut act = vec![0f32; g.node_count()];
    let mut sp = Spreading::start(g, &seeds(start), depth, t);
    for &id in sp.frontier() {
        act[id as usize] = 1.0;
    }
    while let Some(u) = sp.visit_next(g) {
        let out = alive_out(g, u, t);
        let total: f32 = out.iter().map(|&e| w[e as usize]).sum();
        if total <= 0.0 {
            continue;
        }
        let flow = act[u as usize] * 0.9 * (total / (1.0 + total));
        for &e in &out {
            let delta = flow * (w[e as usize] / total);
            let v = g.edge(e).dst as usize;
            if delta > 1e-6 {
                sp.fire(g, e, act[v] == 0.0);
                act[v] += delta;
            }
        }
    }
    act
}

#[test]
fn subgraph_is_directly_traversable_by_the_plasticity_layer() {
    let mut b = InMemoryBackend::new();
    seed(&mut b);
    let sub = b.neighborhood(&seeds(&["gw"]), 2, 2000).unwrap();
    let w = vec![0.5f32; sub.edge_count()];
    let act = act_over(&sub, &["gw"], 2, &w, 2000);
    let mass: f32 = act.iter().sum::<f32>() - 1.0;
    assert!(mass > 0.0);
    assert!(act[sub.id_of("deep").unwrap() as usize] > 0.0);
}

#[test]
fn activation_reaches_as_far_as_the_depth() {
    let g = hub_graph();
    let w = vec![0.5f32; g.edge_count()];
    let f = g.id_of("f").unwrap() as usize;
    assert_eq!(act_over(&g, &["hub"], 0, &w, 1)[f], 0.0);
    assert_eq!(act_over(&g, &["hub"], 1, &w, 1)[f], 0.0);
    assert!(act_over(&g, &["hub"], 2, &w, 1)[f] > 0.0);
    let mut sp = Spreading::start(&g, &seeds(&["nobody"]), 2, 1);
    assert!(sp.frontier().is_empty());
    assert_eq!(sp.visit_next(&g), None);
    assert_eq!(sp.visit_next(&g), None);
}

#[test]
fn the_walk_visits_hop_by_hop() {
    let g = hub_graph();
    let hub = g.id_of("hub").unwrap();
    let a = g.id_of("a").unwrap();
    let mut sp = Spreading::start(&g, &seeds(&["hub"]), 2, 1);
    assert_eq!(sp.visit_next(&g), Some(hub));
    let out = alive_out(&g, hub, 1);
    assert_eq!(out.len(), 5);
    sp.fire(&g, out[0], true);
    sp.fire(&g, out[1], false);
    assert_eq!(sp.visit_next(&g), Some(a));
    assert_eq!(sp.visit_next(&g), None);
    assert_eq!(sp.fired(), &vec![out[0], out[1]]);
}

#[test]
fn ties_break_stably_by_node_id() {
    let acts: Vec<u32> =
        [1.0f32, 0.2, 0.2, 0.0, 0.7, 0.2].iter().map(|x| x.to_bits()).collect();
    let ids: Vec<u32> = ranked(&acts, 10).iter().map(|p| p.0).collect();
    assert_eq!(ids, vec![0, 4, 1, 2, 5]);
    let ids: Vec<u32> = ranked(&acts, 3).iter().map(|p| p.0).collect();
    assert_eq!(ids, vec![0, 4, 1]);
    assert_eq!(ranked(&acts, 1)[0].1, 1.0f32.to_bits());
    assert!(ranked(&acts, 0).is_empty());
}

#[test]
fn sorting_orders_and_keeps() {
    assert_eq!(sorted(&vec![5, 3, 9, 3, 1]), vec![1, 3, 3, 5, 9]);
    assert!(sorted(&vec![]).is_empty());
}

fn bits(w: &[f32]) -> Vec<u32> {
    w.iter().map(|x| x.to_bits()).collect()
}

#[test]
fn sleep_downscales_prunes_and_protects() {
    let g = hub_graph();
    let ha = edge_id(&g, "hub", "a", "CALLS").unwrap() as usize;
    let he = edge_id(&g, "hub", "e", "CALLS").unwrap() as usize;
    let mut w = vec![0.5f32; g.edge_count()];
    w[ha] = 1.0;
    w[he] = 0.3;
    let mut dead = vec![false; w.len()];
    let q = ((1.0f32 - 0.25) * (w.len() - 1) as f32).round() as usize;
    let thr = protection(&dead, &bits(&w), q);
    assert_eq!(f32::from_bits(thr), 0.5);
    let below: Vec<bool> = w.iter().map(|x| x * 0.5 < 0.2).collect();
    let c = sleep_marks(&mut dead, &bits(&w), &below, thr);
    assert!(!dead[ha], "consolidated edge survives");
    assert!(dead[he], "weak edge pruned in sleep");
    assert!(c.protected >= 1 && c.pruned >= 1);
    assert_eq!(c.downscaled, 6);
    assert_eq!(count_live(&dead), 5);
    assert_eq!(protection(&vec![], &vec![], 3), f32::MAX.to_bits());
}

#[test]
fn no_weight_is_above_the_top_of_all() {
    let w = bits(&[0.05]);
    let mut dead = vec![false];
    let thr = protection(&dead, &w, 0);
    let c = sleep_marks(&mut dead, &w, &vec![true], thr);
    assert_eq!((c.downscaled, c.pruned, c.protected), (1, 1, 0));
    assert_eq!(count_live(&dead), 0);
}

#[test]
fn consolidation_prunes_renorms_and_detects_conflict() {
    let json = r#"[{"name":"p","type":"t","edges":[
        {"dst":"q","kind":"SERVES"},{"dst":"r","kind":"SERVES"},
        {"dst":"weak","kind":"NOTE"}]}]"#;
    let mut g = TemporalGraph::new();
    ingest_entities_mem(&mut g, json, 0, false).unwrap();
    let note = edge_id(&g, "p", "weak", "NOTE").unwrap() as usize;
    let pq = edge_id(&g, "p", "q", "SERVES").unwrap() as usize;
    let mut w = vec![0.5f32; g.edge_count()];
    w[note] = 0.01;
    w[pq] = 0.9;
    let mut dead = vec![false; w.len()];
    let below: Vec<bool> = w.iter().map(|x| *x < 0.05).collect();
    let pruned = prune(&mut dead, &below);
    w[note] = 0.0;
    let scaled = budgeted(&g, &dead, &bits(&w));
    assert_eq!(scaled, vec![g.id_of("p").unwrap()]);
    assert_eq!(live_out(&g, scaled[0], &dead).len(), 2);
    let conflicts = find_conflicts(&g, &seeds(&["SERVES"]), &bits(&w), 10_000);
    let st = consolidation_stats(&dead, pruned, &scaled, &conflicts);
    assert_eq!(st.pruned, 1, "weak NOTE pruned");
    assert_eq!(st.conflicts_found, 1, "two open SERVES = conflict");
    assert_eq!(st.live_edges, 2);
    assert_eq!(st.renormalized_sources, 1);
    assert_eq!(conflicts[0].winner_dst, "q");
    assert_eq!(conflicts[0].superseded.len(), 1);
    match &conflicts[0].superseded[0] {
        Op::RetireEdge { src, dst, kind, ts } => {
            assert_eq!((src.as_str(), dst.as_str(), kind.as_str(), *ts), ("p", "r", "SERVES", 10_000));
        }
        _ => panic!("a retirement"),
    }
    assert!(find_conflicts(&g, &seeds(&[]), &bits(&w), 1).is_empty());
    assert!(!touchable(&dead, note as u32));
    assert!(touchable(&dead, pq as u32));
    assert!(!touchable(&dead, 99));
}

#[test]
fn sidecar_future_version_refuses_loudly() {
    let err = check_sidecar(3, None, None).unwrap_err();
    assert!(err.contains("newer"), "unexpected error: {err}");
    assert!(check_sidecar(1, None, Some("a")).is_ok());
    assert!(check_sidecar(2, Some("a"), Some("a")).is_ok());
    let err = check_sidecar(2, Some("a"), Some("b")).unwrap_err();
    assert_eq!(err, "sidecar belongs to a different WAL (a, this one is b)");
}

#[test]
fn stored_state_is_found_by_key() {
    let g = hub_graph();
    let k1 = stable_edge_key(&g, 1);
    let k4 = stable_edge_key(&g, 4);
    let at = match_keys(&g, &vec![k4, 7, k1, k4]);
    assert_eq!(at.len(), 6);
    assert_eq!(at[1], Some(2));
    assert_eq!(at[4], Some(3));
    assert_eq!(at[0], None);
}

#[test]
fn the_longest_prefix_is_trusted() {
    let p = seeds(&["user:", "user:eve", "sys"]);
    assert_eq!(trusted_by("user:eve/1", &p), Some(1));
    assert_eq!(trusted_by("user:bob", &p), Some(0));
    assert_eq!(trusted_by("other", &p), None);
}

#[test]
fn equal_activations_rank_equally() {
    let acts = vec![0, 7, 3, 7, 0, 9, 3];
    let want = vec![(5, 9), (1, 7), (3, 7), (2, 3)];
    assert_eq!(ranked(&acts, 4), want);
    assert_eq!(ranked(&acts, 4), ranked(&acts.clone(), 4));
}
