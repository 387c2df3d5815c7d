use ewm_state_machine::explore::page::{short, truncate};
use ewm_state_machine::flux::report::{loop_back, position_accuracy, run_ids};
use ewm_state_machine::git::store::MemoryStore;
use ewm_state_machine::git::view::view;
use ewm_state_machine::hllset::HLLSet;
use ewm_state_machine::machine::source::parse_script;
use ewm_state_machine::machine::state::StateCache;
use ewm_state_machine::machine::transcript::{invariants_hold, report_closing, report_skipped, report_turn};
use ewm_state_machine::machine::turn::{ids_of_image, StateMachine};
use ewm_state_machine::ops::boot::{
    boot_cid, boot_record, fire_budget, load_text, next_stack, save_text, seed_stack, BootStore, DEFAULT_BOOT,
};
use ewm_state_machine::ops::dispatch::{CommitPoint, CommitReason};
use ewm_state_machine::ops::dsl::compile_boot;
use ewm_state_machine::scene::novelty::novelty_series;
use ewm_state_machine::scene::share::{bss, jaccard, Share};

fn set(bits: &[u32]) -> HLLSet {
    let mut h = HLLSet::new();
    for b in bits {
        h.add_bit(*b);
    }
    h
}

fn names(list: &[&str]) -> Vec<String> {
    list.iter().map(|s| s.to_string()).collect()
}

#[test]
fn turns_are_told_in_full() {
    let mut app = StateMachine::new(MemoryStore::default());
    let mut cache = StateCache::empty();
    let ids = [10u32, 20, 30];
    let out = app.run_turn(&mut cache, &ids).expect("turn");
    let head = app.head().expect("head").short();
    assert_eq!(
        report_turn(0, &ids, &out),
        format!(
            "turn   0: ids=[\"tid10\", \"tid20\", \"tid30\"]\n           commit={head}\n           tip={head}\n           S(t) leaves=1 added=1 removed=0 retained=0\n           full_image_tokens=3 bits(D=0 R=0 N=3)"
        )
    );

    let again = app.run_turn(&mut cache, &ids).expect("turn");
    let told = report_turn(100, &ids, &again);
    assert!(told.starts_with("turn 100: "));
    assert!(told.contains("commit=no-change (idempotent skip)"));

    let tip = app.head().cloned();
    let seen = view(app.repo(), tip.as_ref().expect("tip")).ok();
    assert!(invariants_hold(seen.as_ref().expect("view")));
    assert_eq!(
        report_closing(&tip, app.repo().context_size(), &seen),
        format!(
            "\nfinal tip    : {head}\ncontext size : 3 bits (G1 lattice top)\nNoether invariants (tip, G1): hold\n"
        )
    );
}

#[test]
fn empty_runs_are_told_too() {
    assert_eq!(report_skipped(7), "turn   7: empty turn — skipped");
    assert_eq!(report_skipped(42), "turn  42: empty turn — skipped");
    assert_eq!(
        report_closing(&None, 0, &None),
        "\nfinal tip    : <none>\ncontext size : 0 bits (G1 lattice top)\n"
    );
}

#[test]
fn scripts_are_read_turn_by_turn() {
    assert_eq!(parse_script("1,2,3; 2 , 3;;"), Some(vec![vec![1, 2, 3], vec![2, 3]]));
    assert_eq!(parse_script(""), Some(vec![]));
    assert_eq!(parse_script("1,x"), None);
    assert_eq!(parse_script("4294967296"), None);
}

#[test]
fn images_give_their_ids() {
    let image = vec![b"tid5".to_vec(), b"word".to_vec(), b"tid6".to_vec()];
    assert_eq!(ids_of_image(&image), vec![5, 6]);
}

#[test]
fn the_loop_closes_over_distinct_ids() {
    let report = run_ids(&vec![vec![1, 2, 3, 4], vec![2, 3, 4, 5], vec![9, 8, 7]]);
    assert_eq!(report.frames.len(), 3);
    assert!(report.loop_exact);
    assert!(report.loop_order_exact);
    for f in &report.frames {
        assert_eq!(f.restored_ids, f.ids);
        assert_eq!(f.loop_accuracy.part, f.loop_accuracy.whole);
        assert_eq!(f.loop_recall.part, f.loop_recall.whole);
        assert_eq!(f.loop_precision.part, f.loop_precision.whole);
        assert_eq!(f.soft_final.len(), report.final_projection.dimension);
    }
    assert_eq!(report.basis_changes, report.basis_generations.len());
    assert_eq!(report.frames[0].drn.n, report.frames[0].pop);
}

#[test]
fn ids_come_back_as_a_set_at_least() {
    // The repeated pair leaves the order open, not the members.
    let ids = vec![1u32, 2, 1, 3, 1, 2];
    let back = loop_back(&ids);
    assert_eq!(back.recall.part, back.recall.whole);
    assert_eq!(back.precision.part, back.precision.whole);
}

#[test]
fn accuracy_counts_agreeing_places() {
    assert_eq!(position_accuracy(&[1, 2, 3], &[1, 9, 3, 4]), Share { part: 2, whole: 4 });
    let none = position_accuracy(&[], &[]);
    assert_eq!(none.part, none.whole);
}

#[test]
fn novelty_falls_to_zero_inside_the_span() {
    let out = novelty_series(&vec![set(&[1, 2]), set(&[2, 3]), set(&[1, 3]), set(&[7])]);
    assert_eq!(out.novelty[0], 2);
    assert_eq!(out.novelty[2], 0);
    assert_eq!(out.novelty[3], 1);
    assert_eq!(out.dim, vec![1, 2, 2, 3]);
    assert_eq!(out.coords_len, vec![0, 0, 1, 0]);
}

#[test]
fn shares_are_parts_of_wholes() {
    assert_eq!(bss(&set(&[1, 2, 3]), &set(&[2, 3, 4, 5])), Share { part: 2, whole: 4 });
    assert_eq!(jaccard(&set(&[1, 2, 3]), &set(&[2, 3, 4, 5])), Share { part: 2, whole: 5 });
    assert_eq!(bss(&set(&[1]), &set(&[])).whole, 0);
    assert_eq!(jaccard(&set(&[]), &set(&[])).whole, 0);
}

#[test]
fn boots_start_from_their_own_state() {
    let script = names(&["h:s"]);
    let saved = Some(("b:1".to_string(), names(&["h:a", "h:b"])));
    assert_eq!(seed_stack(saved.clone(), "b:1", &script), names(&["h:a", "h:b"]));
    assert_eq!(seed_stack(saved, "b:2", &script), script);
    assert_eq!(seed_stack(None, "b:1", &script), script);
    assert_eq!(fire_budget(0, 0), usize::MAX);
    assert_eq!(fire_budget(3, 0), 3);
    assert_eq!(fire_budget(3, 5), 5);
    assert_eq!(next_stack(&vec![], &script), script);
    assert_eq!(next_stack(&names(&["h:x"]), &script), names(&["h:x"]));
}

#[test]
fn saved_states_are_read_back() {
    assert_eq!(boot_cid("abc"), "b:a9993e364706816aba3e25717850c26c9cd0d89d");
    let text = save_text("b:1", &names(&["h:a", "h:b"]));
    assert_eq!(load_text(&text), Some(("b:1".to_string(), names(&["h:a", "h:b"]))));
    assert_eq!(load_text(""), None);
}

#[test]
fn long_texts_are_cut() {
    assert_eq!(short("abcdef", 6), "abcdef");
    assert_eq!(short("abcdefg", 6), "abcdef…");
    assert_eq!(truncate("äöü", 3), "äöü");
    assert_eq!(truncate("äöüß", 3), "äöü…");
}

#[test]
fn a_store_without_boot_files_boots_an_empty_machine() {
    let mut store = BootStore::new("boots");
    assert_eq!(store.startup(), (boot_cid(DEFAULT_BOOT), DEFAULT_BOOT.to_string()));
    let program = compile_boot(DEFAULT_BOOT).expect("an empty script");
    assert!(program.stack.is_empty() && program.graph.edges.is_empty());

    let a = store.put_boot("# one\n");
    let b = store.put_boot("# two\n");
    store.set_latest(&b).expect("a known boot");
    assert_eq!(store.startup(), (b.clone(), "# two\n".to_string()));
    let mut boots = vec![(a, false), (b, true)];
    boots.sort();
    assert_eq!(store.list_boots(), boots);
}

#[test]
fn boots_are_recorded() {
    let point = CommitPoint { fired: 3, reason: CommitReason::FireBudget };
    let r = boot_record("b:1", "17", &names(&["h:a", "h:b"]), &point);
    assert_eq!(r.boot, "b:1");
    assert_eq!(r.booted_at, "17");
    assert_eq!(r.state_top.as_deref(), Some("h:b"));
    assert_eq!(r.fires, 3);
    assert_eq!(r.reason, "FireBudget");
    let quiet = CommitPoint { fired: 0, reason: CommitReason::Quiescence };
    let empty = boot_record("b:1", "18", &vec![], &quiet);
    assert_eq!(empty.state_top, None);
    assert_eq!(empty.reason, "Quiescence");
    assert_eq!(CommitReason::Predicate.name(), "Predicate");
}
