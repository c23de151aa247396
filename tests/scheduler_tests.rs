use reverse_checksum_renamer::reconcile::RenamingRecommendation;
use reverse_checksum_renamer::scheduler::{
    destination_path, schedule_renames, RenameAction, RenameReport,
};

fn rec(src: &str, target: &str) -> RenamingRecommendation {
    RenamingRecommendation { source_file: src.to_string(), target_name: target.to_string() }
}

fn paths(ps: &[&str]) -> Vec<String> {
    ps.iter().map(|p| p.to_string()).collect()
}

fn sorted(mut v: Vec<String>) -> Vec<String> {
    v.sort();
    v
}

fn renames(r: &RenameReport) -> usize {
    r.steps.iter().filter(|s| s.action == RenameAction::Rename).count()
}

#[test]
fn destination_joins_directory_and_name() {
    assert_eq!(destination_path(&"d".to_string(), &"a.bin".to_string()), "d/a.bin");
    assert_eq!(destination_path(&"d/".to_string(), &"a.bin".to_string()), "d/a.bin");
    assert_eq!(destination_path(&"".to_string(), &"a.bin".to_string()), "a.bin");
}

#[test]
fn chain_resolves_within_three_passes_in_any_order() {
    let a = rec("d/A", "B");
    let b = rec("d/B", "C");
    let c = rec("d/C", "D");
    let orders = [[0, 1, 2], [0, 2, 1], [1, 0, 2], [1, 2, 0], [2, 0, 1], [2, 1, 0]];
    for order in orders.iter() {
        let all = [a.clone(), b.clone(), c.clone()];
        let recs: Vec<RenamingRecommendation> = order.iter().map(|&i| all[i].clone()).collect();
        let r = schedule_renames(&recs, &"d".to_string(), &paths(&["d/A", "d/B", "d/C"]), false);
        assert!(!r.deadlocked);
        assert!(r.passes >= 1 && r.passes <= 3);
        assert_eq!(renames(&r), 3);
        assert_eq!(sorted(r.occupied.clone()), paths(&["d/B", "d/C", "d/D"]));
    }
}

#[test]
fn chain_in_catalog_order_takes_two_passes() {
    let recs = vec![rec("d/A", "B"), rec("d/B", "C"), rec("d/C", "D")];
    let r = schedule_renames(&recs, &"d".to_string(), &paths(&["d/A", "d/B", "d/C"]), false);
    assert_eq!(r.passes, 2);
    let seq: Vec<(usize, RenameAction)> = r.steps.iter().map(|s| (s.item, s.action)).collect();
    assert_eq!(
        seq,
        vec![
            (0, RenameAction::Deferred),
            (1, RenameAction::Deferred),
            (2, RenameAction::Rename),
            (1, RenameAction::Rename),
            (0, RenameAction::Rename),
        ]
    );
}

#[test]
fn swap_deadlocks_without_renaming() {
    let recs = vec![rec("d/A", "B"), rec("d/B", "A")];
    let r = schedule_renames(&recs, &"d".to_string(), &paths(&["d/A", "d/B"]), false);
    assert!(r.deadlocked);
    assert_eq!(renames(&r), 0);
    assert_eq!(r.passes, 1);
    assert_eq!(r.stuck, vec![1, 0]);
    assert_eq!(sorted(r.occupied.clone()), paths(&["d/A", "d/B"]));
}

#[test]
fn dry_run_leaves_every_source_in_place() {
    let recs = vec![rec("d/x1", "a.bin"), rec("d/x2", "b.bin"), rec("d/A", "B")];
    let before = paths(&["d/x1", "d/x2", "d/A", "d/B"]);
    let r = schedule_renames(&recs, &"d".to_string(), &before, true);
    assert_eq!(sorted(r.occupied.clone()), sorted(before.clone()));
    for p in recs.iter() {
        assert!(r.occupied.contains(&p.source_file));
    }
    assert_eq!(renames(&r), 2);
}

#[test]
fn already_named_and_missing_sources() {
    let recs = vec![rec("d/ok.bin", "ok.bin"), rec("d/gone", "new.bin")];
    let r = schedule_renames(&recs, &"d".to_string(), &paths(&["d/ok.bin"]), false);
    assert!(!r.deadlocked);
    assert_eq!(r.steps.len(), 2);
    assert_eq!(r.steps[0].action, RenameAction::AlreadyNamed);
    assert_eq!(r.steps[1].action, RenameAction::SourceMissing);
    assert_eq!(r.occupied, paths(&["d/ok.bin"]));
}

#[test]
fn nothing_to_do() {
    let r = schedule_renames(&vec![], &"d".to_string(), &paths(&["d/a"]), false);
    assert_eq!(r.passes, 0);
    assert!(r.steps.is_empty());
    assert!(!r.deadlocked);
}
