use kwbot::crud::CommandStore;
use kwbot::dispatch::{guard_message, prepare_add, MessageGate};
use kwbot::kvs::CounterStore;
use kwbot::models::Command;
use kwbot::mutator;
use kwbot::resolver::{resolve, resolver_step, ResolveStep, StoreEvent};
use kwbot::BotError;

fn responses_of(rows: &Vec<Command>) -> Vec<String> {
    let mut out: Vec<String> = Vec::new();
    for r in rows {
        out.push(r.response.clone());
    }
    out
}

#[test]
fn add_resolve_rank() {
    let mut cmds = CommandStore::new();
    let mut ctrs = CounterStore::new();
    assert_eq!(mutator::add(&mut cmds, "G1", "u1", "hi", "hello", 0), Ok(()));
    assert_eq!(resolve(&cmds, &mut ctrs, "G1", "hi"), Some("hello".to_string()));
    let rank = ctrs.command_rank("G1");
    assert_eq!(rank, vec![("hi".to_string(), 1u64)]);
}

#[test]
fn multi_variant() {
    let mut cmds = CommandStore::new();
    let mut ctrs = CounterStore::new();
    assert_eq!(mutator::add(&mut cmds, "G1", "u1", "greet", "hi", 0), Ok(()));
    assert_eq!(mutator::add(&mut cmds, "G1", "u1", "greet", "hola", 1), Ok(()));
    let mut saw_hi = false;
    let mut saw_hola = false;
    for _ in 0..1000 {
        let r = resolve(&cmds, &mut ctrs, "G1", "greet").expect("a variant");
        match r.as_str() {
            "hi" => saw_hi = true,
            "hola" => saw_hola = true,
            other => panic!("unexpected reply {}", other),
        }
    }
    assert!(saw_hi && saw_hola);
    let rank = ctrs.command_rank("G1");
    assert_eq!(rank, vec![("greet".to_string(), 1000u64)]);
}

#[test]
fn multi_variant_lookup_returns_all_rows() {
    let mut cmds = CommandStore::new();
    assert_eq!(cmds.add_command("G1", "greet", "hi", "u1", 0), 1);
    assert_eq!(cmds.add_command("G1", "greet", "hola", "u1", 1), 1);
    assert_eq!(cmds.add_command("G1", "greet", "bonjour", "u2", 2), 1);
    let rows = cmds.get_all_commands("G1", "greet");
    assert_eq!(
        responses_of(&rows),
        vec!["hi".to_string(), "hola".to_string(), "bonjour".to_string()]
    );
    assert!(cmds.get_all_commands("G2", "greet").is_empty());
    assert!(cmds.get_all_commands("G1", "hi").is_empty());
}

#[test]
fn alias_resolution_credits_destination() {
    let mut cmds = CommandStore::new();
    let mut ctrs = CounterStore::new();
    assert_eq!(mutator::add(&mut cmds, "G1", "u1", "joke", "why did...", 0), Ok(()));
    assert_eq!(mutator::alias_add(&mut ctrs, "G1", "j", "joke"), Ok(()));
    assert_eq!(resolve(&cmds, &mut ctrs, "G1", "j"), Some("why did...".to_string()));
    let rank = ctrs.command_rank("G1");
    assert_eq!(rank, vec![("joke".to_string(), 1u64)]);
    for (name, _) in &rank {
        assert_ne!(name, "j");
    }
}

#[test]
fn dangling_alias_resolves_to_nothing() {
    let cmds = CommandStore::new();
    let mut ctrs = CounterStore::new();
    assert_eq!(mutator::alias_add(&mut ctrs, "G1", "x", "nope"), Ok(()));
    assert_eq!(resolve(&cmds, &mut ctrs, "G1", "x"), None);
    assert!(ctrs.command_rank("G1").is_empty());
}

#[test]
fn at_most_one_alias_hop() {
    let mut cmds = CommandStore::new();
    let mut ctrs = CounterStore::new();
    // a -> b -> c; only c owns rows; b owns none, so resolving a stops.
    assert_eq!(mutator::add(&mut cmds, "G1", "u1", "c", "deep", 0), Ok(()));
    assert_eq!(mutator::alias_add(&mut ctrs, "G1", "a", "b"), Ok(()));
    assert_eq!(mutator::alias_add(&mut ctrs, "G1", "b", "c"), Ok(()));
    assert_eq!(resolve(&cmds, &mut ctrs, "G1", "a"), None);
    assert_eq!(resolve(&cmds, &mut ctrs, "G1", "b"), Some("deep".to_string()));
    assert_eq!(ctrs.command_rank("G1"), vec![("c".to_string(), 1u64)]);
}

#[test]
fn remove_cleans_both_stores() {
    let mut cmds = CommandStore::new();
    let mut ctrs = CounterStore::new();
    assert_eq!(mutator::add(&mut cmds, "G1", "u1", "greet", "hi", 0), Ok(()));
    assert_eq!(mutator::add(&mut cmds, "G1", "u1", "greet", "hola", 1), Ok(()));
    assert!(resolve(&cmds, &mut ctrs, "G1", "greet").is_some());
    assert_eq!(mutator::remove(&mut cmds, &mut ctrs, "G1", "greet"), Ok(2));
    assert!(cmds.get_all_commands("G1", "greet").is_empty());
    assert!(ctrs.command_rank("G1").is_empty());
}

#[test]
fn remove_is_idempotent() {
    let mut cmds = CommandStore::new();
    let mut ctrs = CounterStore::new();
    assert_eq!(mutator::add(&mut cmds, "G1", "u1", "n", "r", 0), Ok(()));
    assert_eq!(mutator::remove(&mut cmds, &mut ctrs, "G1", "n"), Ok(1));
    assert_eq!(mutator::remove(&mut cmds, &mut ctrs, "G1", "n"), Ok(0));
}

#[test]
fn counter_forget_purges_scoreboard() {
    let mut ctrs = CounterStore::new();
    ctrs.command_incr("G1", "n");
    ctrs.command_incr("G1", "n");
    ctrs.command_incr("G1", "other");
    ctrs.command_delete("G1", "n");
    let rank = ctrs.command_rank("G1");
    assert_eq!(rank, vec![("other".to_string(), 1u64)]);
    // Forgetting an absent entry is a successful no-op.
    ctrs.command_delete("G1", "n");
    assert_eq!(ctrs.command_rank("G1"), vec![("other".to_string(), 1u64)]);
}

#[test]
fn rank_orders_descending_and_cuts_at_k() {
    let mut ctrs = CounterStore::new();
    for _ in 0..3 {
        ctrs.command_incr("G1", "three");
    }
    for _ in 0..5 {
        ctrs.command_incr("G1", "five");
    }
    ctrs.command_incr("G1", "one");
    ctrs.command_incr("G2", "elsewhere");
    assert_eq!(
        ctrs.top("G1", 10),
        vec![
            ("five".to_string(), 5u64),
            ("three".to_string(), 3u64),
            ("one".to_string(), 1u64),
        ]
    );
    assert_eq!(
        ctrs.top("G1", 2),
        vec![("five".to_string(), 5u64), ("three".to_string(), 3u64)]
    );
    assert_eq!(ctrs.top("G2", 10), vec![("elsewhere".to_string(), 1u64)]);
}

#[test]
fn rank_top_ten_of_twelve() {
    let mut ctrs = CounterStore::new();
    let names = [
        "a", "b", "c", "d", "e", "f", "g", "h", "i", "j", "k", "l",
    ];
    for (idx, name) in names.iter().enumerate() {
        for _ in 0..(idx + 1) {
            ctrs.command_incr("G1", name);
        }
    }
    let rank = ctrs.command_rank("G1");
    assert_eq!(rank.len(), 10);
    assert_eq!(rank[0], ("l".to_string(), 12u64));
    assert_eq!(rank[9], ("c".to_string(), 3u64));
    for w in rank.windows(2) {
        assert!(w[0].1 >= w[1].1);
    }
}

#[test]
fn alias_overwrite_and_remove() {
    let mut ctrs = CounterStore::new();
    assert_eq!(ctrs.add_alias("G1", "s", "first"), 1);
    assert_eq!(ctrs.add_alias("G1", "s", "second"), 0);
    assert_eq!(ctrs.retrieve_alias("G1", "s"), Some("second".to_string()));
    assert_eq!(ctrs.retrieve_alias("G1", "t"), None);
    assert_eq!(ctrs.remove_alias("G1", "s"), 1);
    assert_eq!(ctrs.remove_alias("G1", "s"), 0);
    assert_eq!(ctrs.retrieve_alias("G1", "s"), None);
}

#[test]
fn alias_is_per_guild() {
    let mut ctrs = CounterStore::new();
    assert_eq!(ctrs.add_alias("G1", "s", "one"), 1);
    assert_eq!(ctrs.add_alias("G2", "s", "two"), 1);
    assert_eq!(ctrs.retrieve_alias("G1", "s"), Some("one".to_string()));
    assert_eq!(ctrs.retrieve_alias("G2", "s"), Some("two".to_string()));
}

#[test]
fn add_rejects_empty_name_or_response() {
    let mut cmds = CommandStore::new();
    assert_eq!(
        mutator::add(&mut cmds, "G1", "u1", "", "resp", 0),
        Err(BotError::InvalidArgs)
    );
    assert_eq!(
        mutator::add(&mut cmds, "G1", "u1", "name", "", 0),
        Err(BotError::InvalidArgs)
    );
    assert!(cmds.get_all_commands("G1", "").is_empty());
    assert!(cmds.get_all_commands("G1", "name").is_empty());
}

#[test]
fn alias_add_rejects_empty_names() {
    let mut ctrs = CounterStore::new();
    assert_eq!(mutator::alias_add(&mut ctrs, "G1", "", "dst"), Err(BotError::InvalidArgs));
    assert_eq!(mutator::alias_add(&mut ctrs, "G1", "src", ""), Err(BotError::InvalidArgs));
    assert_eq!(ctrs.retrieve_alias("G1", ""), None);
    assert_eq!(ctrs.retrieve_alias("G1", "src"), None);
}

#[test]
fn alias_remove_is_idempotent() {
    let mut ctrs = CounterStore::new();
    assert_eq!(mutator::alias_add(&mut ctrs, "G1", "s", "d"), Ok(()));
    assert_eq!(mutator::alias_remove(&mut ctrs, "G1", "s"), Ok(()));
    assert_eq!(mutator::alias_remove(&mut ctrs, "G1", "s"), Ok(()));
    assert_eq!(ctrs.retrieve_alias("G1", "s"), None);
}

#[test]
fn dm_rejection() {
    // A guild-bound verb on a message without guild context is refused
    // before any store is touched.
    assert_eq!(guard_message(false, false), MessageGate::RejectDm);
    assert_eq!(guard_message(false, true), MessageGate::Proceed);
    assert_eq!(guard_message(true, false), MessageGate::Ignore);
    assert_eq!(guard_message(true, true), MessageGate::Ignore);
}

#[test]
fn prepare_add_shapes_arguments() {
    assert_eq!(
        prepare_add("pic", "", Some("https://example.test/cat.png")),
        Ok(("pic".to_string(), "https://example.test/cat.png".to_string()))
    );
    assert_eq!(
        prepare_add("hi", "hello there", None),
        Ok(("hi".to_string(), "hello there".to_string()))
    );
    assert_eq!(prepare_add("hi", "", None), Err(BotError::InvalidArgs));
    assert_eq!(prepare_add("", "hello", None), Err(BotError::InvalidArgs));
}

#[test]
fn resolver_walk_direct_hit() {
    let state = ResolveStep::LookupDirect { token: "hi".to_string() };
    let next = resolver_step(
        state,
        StoreEvent::Rows { responses: vec!["hello".to_string()] },
    );
    match next {
        ResolveStep::Emit { name, text } => {
            assert_eq!(name, "hi");
            assert_eq!(text, "hello");
        }
        _ => panic!("expected an emit"),
    }
}

#[test]
fn resolver_walk_through_alias() {
    let mut state = ResolveStep::LookupDirect { token: "j".to_string() };
    state = resolver_step(state, StoreEvent::Rows { responses: vec![] });
    assert!(matches!(state, ResolveStep::LookupAlias { .. }));
    state = resolver_step(state, StoreEvent::AliasHit { dst: "joke".to_string() });
    assert!(matches!(state, ResolveStep::LookupIndirect { .. }));
    state = resolver_step(
        state,
        StoreEvent::Rows { responses: vec!["why did...".to_string()] },
    );
    match state {
        ResolveStep::Emit { name, text } => {
            assert_eq!(name, "joke");
            assert_eq!(text, "why did...");
        }
        _ => panic!("expected an emit"),
    }
}

#[test]
fn resolver_walk_misses_and_failures() {
    let state = ResolveStep::LookupDirect { token: "t".to_string() };
    let next = resolver_step(state, StoreEvent::StoreFailed);
    assert!(matches!(next, ResolveStep::Failed));

    let state = ResolveStep::LookupAlias { token: "t".to_string() };
    let next = resolver_step(state, StoreEvent::AliasMiss);
    assert!(matches!(next, ResolveStep::DoneEmpty));

    let state = ResolveStep::LookupIndirect { dst: "d".to_string() };
    let next = resolver_step(state, StoreEvent::Rows { responses: vec![] });
    assert!(matches!(next, ResolveStep::DoneEmpty));

    let state = ResolveStep::LookupIndirect { dst: "d".to_string() };
    let next = resolver_step(state, StoreEvent::StoreFailed);
    assert!(matches!(next, ResolveStep::DoneEmpty));
}

#[test]
fn resolve_keeps_non_ascii_content() {
    let mut cmds = CommandStore::new();
    let mut ctrs = CounterStore::new();
    assert_eq!(
        mutator::add(&mut cmds, "G1", "u1", "greet", "こんにちは世界", 0),
        Ok(())
    );
    assert_eq!(
        resolve(&cmds, &mut ctrs, "G1", "greet"),
        Some("こんにちは世界".to_string())
    );
}
