use llgtrt::limits::{merge_limits, stderr_log_level};
use llgtrt::pool::{singleton_mask, MaskPool};
use llgtrt::results::{map_finish_reason, EngineFinish, FinishReason, StepResults};
use llgtrt::step::{
    finish_batch, finish_item, judge_commit, token_to_commit, CommitDecision, CommitReport,
    ItemOutcome,
};
use llgtrt::table::{
    sort_by_seq, validate_grammar_count, Delivery, EntryInfo, RequestError, RequestTable, Route,
};

/// A stand-in for a grammar machine: it stops after `left` more commits.
#[derive(Debug, PartialEq)]
struct FakeMachine {
    id: u32,
    left: u32,
    masks_computed: u32,
}

fn machine(id: u32, left: u32) -> FakeMachine {
    FakeMachine { id, left, masks_computed: 0 }
}

#[test]
fn grammar_count_zero_or_n_is_accepted() {
    assert_eq!(validate_grammar_count(0, 3), Ok(()));
    assert_eq!(validate_grammar_count(3, 3), Ok(()));
    assert_eq!(validate_grammar_count(1, 1), Ok(()));
}

#[test]
fn grammar_count_mismatch_is_rejected_before_enqueue() {
    assert_eq!(validate_grammar_count(2, 3), Err(RequestError::GrammarCount));
    assert_eq!(validate_grammar_count(4, 3), Err(RequestError::GrammarCount));
    let table: RequestTable<FakeMachine> = RequestTable::new();
    assert_eq!(table.len(), 0);
}

#[test]
fn duplicate_ids_are_refused() {
    let mut t: RequestTable<FakeMachine> = RequestTable::new();
    assert_eq!(t.insert_request(10, 100, 4, vec![machine(0, 5)]), Ok(()));
    assert_eq!(t.insert_request(10, 101, 4, vec![]), Err(RequestError::DuplicateId));
    assert_eq!(t.insert_request(11, 100, 4, vec![]), Err(RequestError::DuplicateId));
    assert_eq!(t.len(), 1);
}

#[test]
fn singleton_mask_sets_one_bit() {
    let m = singleton_mask(4, 37);
    assert_eq!(m, vec![0, 1 << 5, 0, 0]);
    let m0 = singleton_mask(2, 0);
    assert_eq!(m0, vec![1, 0]);
}

#[test]
fn pool_copies_and_reset_keeps_words() {
    let mut p = MaskPool::new(2, 3);
    let a = p.allocate_copy(&vec![7, 8, 9]);
    assert_eq!(a, 0);
    assert_eq!(p.mask(0), &vec![7, 8]);
    let b = p.allocate_copy(&vec![1, 2]);
    assert_eq!(b, 1);
    p.reset();
    assert_eq!(p.next, 0);
    assert_eq!(p.mask(0), &vec![7, 8]);
    assert_eq!(p.mask(1), &vec![1, 2]);
}

#[test]
fn same_mask_in_two_steps_is_identical() {
    let mut p = MaskPool::new(3, 2);
    let bits = vec![0xdead_beef, 0x0123_4567, 0xffff_0000];
    let first = p.allocate_copy(&bits);
    let before = p.mask(first).clone();
    p.reset();
    assert_eq!(p.mask(first), &before);
    let second = p.allocate_copy(&bits);
    assert_eq!(p.mask(second), &before);
}

#[test]
fn token_to_commit_after_prompt() {
    assert_eq!(token_to_commit(3, &vec![1, 2, 3]), None);
    assert_eq!(token_to_commit(3, &vec![1, 2, 3, 42]), Some(42));
    assert_eq!(token_to_commit(0, &vec![]), None);
}

#[test]
fn commit_judgement() {
    let ok = CommitReport { backtrack: 0, stop: false, ff_tokens: vec![5] };
    assert_eq!(judge_commit(&ok, 5), CommitDecision::Continue);
    let stop = CommitReport { backtrack: 0, stop: true, ff_tokens: vec![] };
    assert_eq!(judge_commit(&stop, 5), CommitDecision::Stop);
    let back = CommitReport { backtrack: 1, stop: true, ff_tokens: vec![5] };
    assert_eq!(judge_commit(&back, 5), CommitDecision::Unsupported);
    let multi = CommitReport { backtrack: 0, stop: false, ff_tokens: vec![5, 6] };
    assert_eq!(judge_commit(&multi, 5), CommitDecision::Unsupported);
    let other = CommitReport { backtrack: 0, stop: false, ff_tokens: vec![6] };
    assert_eq!(judge_commit(&other, 5), CommitDecision::Unsupported);
}

#[test]
fn finish_item_short_mask_is_an_error() {
    let mut p = MaskPool::new(2, 1);
    let r = finish_item(&mut p, ItemOutcome::Mask(vec![1]), 33);
    assert!(r.stopped);
    assert!(r.error.is_some());
    assert_eq!(p.mask(r.buf), &vec![0, 2]);
}

#[test]
fn fault_gives_eos_mask_and_leaves_siblings_alone() {
    let mut p = MaskPool::new(2, 4);
    let outcomes = vec![
        ItemOutcome::Mask(vec![0xf0, 0x0f]),
        ItemOutcome::Fault("grammar exploded".to_string()),
        ItemOutcome::Mask(vec![3, 4]),
    ];
    let r = finish_batch(&mut p, outcomes, 1);
    assert_eq!(r.len(), 3);
    assert_eq!(p.mask(r[0].buf), &vec![0xf0, 0x0f]);
    assert_eq!(r[0].error, None);
    assert!(!r[0].stopped);
    assert_eq!(p.mask(r[1].buf), &vec![2, 0]);
    assert_eq!(r[1].error, Some("grammar exploded".to_string()));
    assert!(r[1].stopped);
    assert_eq!(p.mask(r[2].buf), &vec![3, 4]);
    assert_eq!(r[2].error, None);
}

#[test]
fn stopped_item_gets_eos_only_mask() {
    let mut p = MaskPool::new(1, 1);
    let r = finish_item(&mut p, ItemOutcome::Stopped, 3);
    assert!(r.stopped);
    assert_eq!(r.error, None);
    assert_eq!(p.mask(r.buf), &vec![8]);
}

#[test]
fn sort_by_seq_orders_ids() {
    let s = sort_by_seq(vec![(9, 0), (3, 1), (5, 2), (3, 3)]);
    assert_eq!(s, vec![(3, 1), (3, 3), (5, 2), (9, 0)]);
}

#[test]
fn slots_bound_in_ascending_sequence_order() {
    for order in [vec![30u64, 10, 20], vec![10, 20, 30], vec![20, 30, 10]] {
        let mut t: RequestTable<FakeMachine> = RequestTable::new();
        t.insert_request(1, 100, 2, vec![machine(0, 9), machine(1, 9), machine(2, 9)]).unwrap();
        let entries: Vec<EntryInfo> =
            order.iter().map(|s| EntryInfo { seq_id: *s, client_req_id: 100 }).collect();
        let pending = t.check_out(&entries);
        assert_eq!(pending.len(), 3);
        assert_eq!(t.recs[0].llg_infos, vec![10, 20, 30]);
        for p in &pending {
            let seq = entries[p.entry_idx].seq_id;
            assert_eq!(p.llg_idx as u64, seq / 10 - 1);
            assert_eq!(p.llg.as_ref().unwrap().id as usize, p.llg_idx);
            assert!(t.recs[0].llgs[p.llg_idx].is_none());
        }
    }
}

#[test]
fn bound_sequence_keeps_its_slot() {
    let mut t: RequestTable<FakeMachine> = RequestTable::new();
    t.insert_request(1, 100, 2, vec![machine(0, 9), machine(1, 9)]).unwrap();
    let e = vec![EntryInfo { seq_id: 7, client_req_id: 100 }];
    let p = t.check_out(&e);
    assert_eq!(p[0].llg_idx, 0);
    let p0 = p.into_iter().next().unwrap();
    assert!(t.check_in(100, p0.llg_idx, p0.llg.unwrap(), String::new(), None, false));
    let both = vec![
        EntryInfo { seq_id: 3, client_req_id: 100 },
        EntryInfo { seq_id: 7, client_req_id: 100 },
    ];
    let p = t.check_out(&both);
    assert_eq!(t.recs[0].llg_infos, vec![7, 3]);
    assert_eq!(p.iter().find(|x| x.entry_idx == 1).unwrap().llg_idx, 0);
    assert_eq!(p.iter().find(|x| x.entry_idx == 0).unwrap().llg_idx, 1);
}

#[test]
fn entries_without_request_get_no_item() {
    let mut t: RequestTable<FakeMachine> = RequestTable::new();
    t.insert_request(1, 100, 0, vec![]).unwrap();
    let e = vec![
        EntryInfo { seq_id: 1, client_req_id: 100 },
        EntryInfo { seq_id: 2, client_req_id: 555 },
    ];
    assert_eq!(t.check_out(&e).len(), 0);
}

#[test]
fn first_error_wins_and_logs_accumulate() {
    let mut t: RequestTable<FakeMachine> = RequestTable::new();
    t.insert_request(1, 100, 0, vec![machine(0, 9), machine(1, 9)]).unwrap();
    let e = vec![
        EntryInfo { seq_id: 1, client_req_id: 100 },
        EntryInfo { seq_id: 2, client_req_id: 100 },
    ];
    let mut p = t.check_out(&e);
    let b = p.pop().unwrap();
    let a = p.pop().unwrap();
    assert!(t.check_in(100, a.llg_idx, a.llg.unwrap(), "one;".to_string(), Some("first".to_string()), false));
    assert!(t.check_in(100, b.llg_idx, b.llg.unwrap(), "two;".to_string(), Some("second".to_string()), false));
    assert_eq!(t.recs[0].error, Some("first".to_string()));
    assert_eq!(t.recs[0].logs, "one;two;");
    assert!(t.recs[0].llgs.iter().all(|s| s.is_some()));
    assert!(!t.check_in(555, 0, machine(9, 9), String::new(), None, false));
}

#[test]
fn cancelled_request_responses_are_unknown() {
    let mut t: RequestTable<FakeMachine> = RequestTable::new();
    t.insert_request(1, 100, 0, vec![machine(0, 9)]).unwrap();
    let e = vec![EntryInfo { seq_id: 1, client_req_id: 100 }];
    let p = t.check_out(&e);
    assert!(t.cancel_request(1));
    assert_eq!(t.len(), 0);
    assert!(!t.cancel_request(1));
    assert!(matches!(t.route_response(1, 0, true, false), Route::Unknown));
    let p0 = p.into_iter().next().unwrap();
    assert!(!t.check_in(100, p0.llg_idx, p0.llg.unwrap(), String::new(), None, false));
}

#[test]
fn dropped_receiver_triggers_one_cancellation() {
    let mut t: RequestTable<FakeMachine> = RequestTable::new();
    t.insert_request(1, 100, 0, vec![]).unwrap();
    assert_eq!(t.after_delivery(1, true, false), Delivery::Continue);
    assert_eq!(t.len(), 1);
    assert_eq!(t.after_delivery(1, false, false), Delivery::CancelEngine);
    assert_eq!(t.len(), 0);
    assert!(matches!(t.route_response(1, 0, false, false), Route::Unknown));
}

#[test]
fn final_chunk_removes_the_request() {
    let mut t: RequestTable<FakeMachine> = RequestTable::new();
    t.insert_request(1, 100, 0, vec![]).unwrap();
    assert_eq!(t.after_delivery(1, true, true), Delivery::Finished);
    assert_eq!(t.len(), 0);
}

#[test]
fn route_takes_logs_error_and_final_machine() {
    let mut t: RequestTable<FakeMachine> = RequestTable::new();
    t.insert_request(1, 100, 0, vec![machine(4, 9)]).unwrap();
    let e = vec![EntryInfo { seq_id: 1, client_req_id: 100 }];
    let p = t.check_out(&e).into_iter().next().unwrap();
    t.check_in(100, p.llg_idx, p.llg.unwrap(), "log".to_string(), Some("bad".to_string()), false);
    match t.route_response(1, 0, false, false) {
        Route::Deliver { logs, final_llg, error } => {
            assert_eq!(logs, "log");
            assert!(final_llg.is_none());
            assert_eq!(error, Some("bad".to_string()));
        }
        Route::Unknown => panic!("request should be known"),
    }
    assert_eq!(t.recs[0].logs, "");
    match t.route_response(1, 0, true, true) {
        Route::Deliver { logs, final_llg, error } => {
            assert_eq!(logs, "");
            assert_eq!(final_llg.unwrap().id, 4);
            assert_eq!(error, None);
        }
        Route::Unknown => panic!("request should be known"),
    }
    assert!(t.recs[0].llgs[0].is_none());
}

#[test]
fn finish_reasons() {
    assert_eq!(map_finish_reason(EngineFinish::EosToken), FinishReason::Stop);
    assert_eq!(map_finish_reason(EngineFinish::StopWords), FinishReason::Stop);
    assert_eq!(map_finish_reason(EngineFinish::Length), FinishReason::Length);
    assert_eq!(map_finish_reason(EngineFinish::Other), FinishReason::Stop);
}

#[test]
fn take_logs_empties() {
    let mut r: StepResults<u32, FakeMachine> =
        StepResults { response: 1, logs: "abc".to_string(), final_llg: None };
    assert_eq!(r.take_logs(), Some("abc".to_string()));
    assert_eq!(r.take_logs(), None);
    assert_eq!(r.logs, "");
}

/// Runs one batch step for the fake machine: check out, compute, finish,
/// check in. Returns how many items were computed.
fn run_step(t: &mut RequestTable<FakeMachine>, pool: &mut MaskPool, entries: &Vec<EntryInfo>, tokens: &Vec<u32>) -> usize {
    let pending = t.check_out(entries);
    pool.reset();
    let mut outcomes = vec![];
    let mut machines = vec![];
    for p in pending {
        let mut m = p.llg.unwrap();
        let outcome = match token_to_commit(p.prompt_len, tokens) {
            Some(tok) => {
                let stop = m.left == 0;
                if !stop {
                    m.left -= 1;
                }
                let rep = CommitReport { backtrack: 0, stop, ff_tokens: if stop { vec![] } else { vec![tok] } };
                match judge_commit(&rep, tok) {
                    CommitDecision::Stop => ItemOutcome::Stopped,
                    CommitDecision::Continue => {
                        m.masks_computed += 1;
                        ItemOutcome::Mask(vec![0b1110, 0])
                    }
                    CommitDecision::Unsupported => ItemOutcome::Fault("unsupported".to_string()),
                }
            }
            None => {
                m.masks_computed += 1;
                ItemOutcome::Mask(vec![0b1110, 0])
            }
        };
        outcomes.push(outcome);
        machines.push((p.client_req_id, p.llg_idx, m));
    }
    let n = outcomes.len();
    let done = finish_batch(pool, outcomes, 0);
    for ((c, li, m), r) in machines.into_iter().zip(done.into_iter()) {
        t.check_in(c, li, m, String::new(), r.error, r.stopped);
    }
    n
}

#[test]
fn end_to_end_single_grammar() {
    let mut t: RequestTable<FakeMachine> = RequestTable::new();
    let mut pool = MaskPool::new(2, 4);
    assert_eq!(validate_grammar_count(1, 1), Ok(()));
    t.insert_request(7, 70, 2, vec![machine(0, 2)]).unwrap();
    let entries = vec![EntryInfo { seq_id: 7, client_req_id: 70 }];
    let mut tokens = vec![11u32, 12];
    let mut delivered = 0;
    let mut finished = false;
    for _step in 0..3 {
        assert_eq!(run_step(&mut t, &mut pool, &entries, &tokens), 1);
        tokens.push(20);
        let stopped_now = t.recs[0].llgs[0].as_ref().unwrap().left == 0
            && t.recs[0].llgs[0].as_ref().unwrap().masks_computed == 3;
        match t.route_response(7, 0, stopped_now, false) {
            Route::Deliver { final_llg, .. } => {
                delivered += 1;
                if stopped_now {
                    assert!(final_llg.is_some());
                    assert_eq!(t.after_delivery(7, true, true), Delivery::Finished);
                    finished = true;
                } else {
                    assert_eq!(t.after_delivery(7, true, false), Delivery::Continue);
                }
            }
            Route::Unknown => panic!("request should be known"),
        }
        if finished {
            break;
        }
    }
    assert_eq!(delivered, 3);
    assert!(finished);
    assert_eq!(run_step(&mut t, &mut pool, &entries, &tokens), 0);
}

#[test]
fn limits_overrides_win_and_defaults_fill_in() {
    let overrides = vec![("max_items".to_string(), 5u64)];
    let defaults = vec![
        ("step_lexer_fuel".to_string(), 200u64),
        ("max_items".to_string(), 50),
        ("max_grammar_size".to_string(), 500),
    ];
    let r = merge_limits(overrides, defaults);
    assert_eq!(
        r,
        vec![
            ("max_items".to_string(), 5),
            ("step_lexer_fuel".to_string(), 200),
            ("max_grammar_size".to_string(), 500),
        ]
    );
}

#[test]
fn limits_without_overrides_are_the_defaults() {
    let defaults = vec![("a".to_string(), 1u64), ("b".to_string(), 2)];
    assert_eq!(merge_limits(vec![], defaults.clone()), defaults);
}

#[test]
fn stderr_level_defaults_to_one() {
    assert_eq!(stderr_log_level(None), 1);
    assert_eq!(stderr_log_level(Some(3)), 3);
}

#[test]
fn stopped_slot_is_not_checked_out_again() {
    let mut t: RequestTable<FakeMachine> = RequestTable::new();
    t.insert_request(1, 100, 0, vec![machine(0, 9)]).unwrap();
    let e = vec![EntryInfo { seq_id: 1, client_req_id: 100 }];
    let p = t.check_out(&e).into_iter().next().unwrap();
    assert!(t.check_in(100, p.llg_idx, p.llg.unwrap(), String::new(), None, true));
    assert!(t.recs[0].llg_stopped[0]);
    assert_eq!(t.check_out(&e).len(), 0);
    assert!(t.recs[0].llgs[0].is_some());
    match t.route_response(1, 0, true, false) {
        Route::Deliver { final_llg, .. } => assert_eq!(final_llg.unwrap().id, 0),
        Route::Unknown => panic!("request should be known"),
    }
}

#[test]
fn machine_moves_out_and_back() {
    let mut t: RequestTable<FakeMachine> = RequestTable::new();
    t.insert_request(1, 100, 0, vec![machine(5, 9), machine(6, 9)]).unwrap();
    let e = vec![EntryInfo { seq_id: 4, client_req_id: 100 }];
    let p = t.check_out(&e).into_iter().next().unwrap();
    assert_eq!(p.llg.as_ref().unwrap().id, 5);
    assert!(t.recs[0].llgs[0].is_none());
    assert_eq!(t.recs[0].llgs[1].as_ref().unwrap().id, 6);
    assert!(t.check_in(100, p.llg_idx, p.llg.unwrap(), String::new(), None, false));
    assert_eq!(t.recs[0].llgs[0].as_ref().unwrap().id, 5);
    assert!(!t.recs[0].llg_stopped[0]);
}
