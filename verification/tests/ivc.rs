use heap_circuit::field::BabyBear;
use heap_circuit::ivc::st_col;
use heap_circuit::ivc::{
    extend_accumulated_hash, extend_accumulated_hash_wide, extend_turn_accumulator,
    generate_state_transition_trace, initial_accumulated_hash, initial_accumulated_hash_wide,
    recompute_accumulated_hash, turn_receipt_hash, TurnTransitionSummary, ACCUMULATED_HASH_WIDTH,
    AGGREGATE_DIGEST_WIDTH,
};

#[test]
fn wide_accumulator_is_eight_distinct_avalanching_felts() {
    assert_eq!(ACCUMULATED_HASH_WIDTH, 8, "the faithful floor is 8 felts");

    let init_root = BabyBear::new(0xABCD_1234);
    let base = initial_accumulated_hash_wide(init_root);
    assert_eq!(base.len(), 8);

    for i in 0..8 {
        for j in (i + 1)..8 {
            assert_ne!(base[i], base[j], "base felts {i},{j} collide — not 8 distinct");
        }
    }
    assert!(base.iter().any(|&x| x != BabyBear::zero()), "base is all-zero");

    let base2 = initial_accumulated_hash_wide(init_root + BabyBear::new(1));
    for i in 0..8 {
        assert_ne!(base[i], base2[i], "base output felt {i} unchanged under input flip");
    }

    let new_root = BabyBear::new(0x0BAD_F00D);
    let step = 3u32;
    let ext = extend_accumulated_hash_wide(&base, new_root, step);
    for i in 0..8 {
        for j in (i + 1)..8 {
            assert_ne!(ext[i], ext[j], "step felts {i},{j} collide — not 8 distinct");
        }
    }

    for k in 0..8 {
        let mut tampered = base;
        tampered[k] += BabyBear::new(1);
        let ext_k = extend_accumulated_hash_wide(&tampered, new_root, step);
        for i in 0..8 {
            assert_ne!(
                ext[i], ext_k[i],
                "flipping old-carrier felt {k} left output felt {i} fixed — carrier lane not bound"
            );
        }
    }

    let ext_root = extend_accumulated_hash_wide(&base, new_root + BabyBear::new(1), step);
    let ext_step = extend_accumulated_hash_wide(&base, new_root, step + 1);
    for i in 0..8 {
        assert_ne!(ext[i], ext_root[i], "new_root not bound at output felt {i}");
        assert_ne!(ext[i], ext_step[i], "step_count not bound at output felt {i}");
    }
}

#[test]
fn ivc_accumulated_hash_deterministic() {
    let root = BabyBear::new(42);
    let h1 = initial_accumulated_hash(root);
    let h2 = initial_accumulated_hash(root);
    assert_eq!(h1, h2);

    let extended1 = extend_accumulated_hash(h1, BabyBear::new(100), 1);
    let extended2 = extend_accumulated_hash(h2, BabyBear::new(100), 1);
    assert_eq!(extended1, extended2);
}

#[test]
fn ivc_accumulated_hash_order_sensitive() {
    let root = BabyBear::new(42);
    let h = initial_accumulated_hash(root);

    let r1 = BabyBear::new(100);
    let r2 = BabyBear::new(200);

    let h_12 = extend_accumulated_hash(extend_accumulated_hash(h, r1, 1), r2, 2);
    let h_21 = extend_accumulated_hash(extend_accumulated_hash(h, r2, 1), r1, 2);

    assert_ne!(h_12, h_21);
}

#[test]
fn ivc_state_transition_trace_is_correct_hash_chain() {
    let initial_root = BabyBear::new(42);
    let new_roots = vec![
        BabyBear::new(100),
        BabyBear::new(200),
        BabyBear::new(300),
        BabyBear::new(400),
    ];

    let (trace, public_inputs) = generate_state_transition_trace(initial_root, &new_roots);

    assert_eq!(public_inputs[0], initial_root);
    assert_eq!(public_inputs[1], *new_roots.last().unwrap());
    assert_eq!(public_inputs[2], BabyBear::new(4));
    assert_eq!(
        public_inputs[3],
        recompute_accumulated_hash(initial_root, &new_roots),
        "bound accumulated hash must equal the recomputed chain"
    );

    assert_eq!(trace[0][st_col::OLD_HASH], initial_accumulated_hash(initial_root));
    for (i, &root) in new_roots.iter().enumerate() {
        let row = &trace[i];
        assert_eq!(row[st_col::STEP], BabyBear::new((i + 1) as u32));
        assert_eq!(row[st_col::NEW_ROOT], root);
        assert_eq!(
            row[st_col::NEW_HASH],
            extend_accumulated_hash(row[st_col::OLD_HASH], root, (i + 1) as u32),
            "row {i} violates the hash-chain relation"
        );
        if i + 1 < new_roots.len() {
            assert_eq!(
                trace[i + 1][st_col::OLD_HASH],
                row[st_col::NEW_HASH],
                "rows {i}->{} break chain continuity",
                i + 1
            );
        }
    }
}

/// An honest chain of `n` linked turn summaries.
fn build_turn_chain(n: usize) -> Vec<TurnTransitionSummary> {
    assert!(n >= 1);
    let mut summaries = Vec::with_capacity(n);
    let mut prev_post = BabyBear::new(1_000);
    let mut prev_receipt = BabyBear::zero();

    for i in 0..n {
        let turn_hash = [
            BabyBear::new((i as u32) * 7 + 11),
            BabyBear::new((i as u32) * 7 + 12),
            BabyBear::new((i as u32) * 7 + 13),
            BabyBear::new((i as u32) * 7 + 14),
        ];
        let pre = prev_post;
        let post = BabyBear::new((i as u32 + 2) * 1_000);

        let previous_receipt_hash = if i == 0 {
            [BabyBear::zero(); AGGREGATE_DIGEST_WIDTH]
        } else {
            TurnTransitionSummary::encode_receipt_link(prev_receipt)
        };

        let s = TurnTransitionSummary {
            turn_hash,
            pre_state_root: pre,
            post_state_root: post,
            previous_receipt_hash,
            bilateral_consistent: BabyBear::new(1),
        };

        let turn_hash_d = s.turn_hash_digest();
        let link_in = if i == 0 { BabyBear::zero() } else { prev_receipt };
        let receipt = turn_receipt_hash(turn_hash_d, pre, post, link_in, BabyBear::new(1));

        prev_receipt = receipt;
        prev_post = post;
        summaries.push(s);
    }
    summaries
}

#[test]
fn multi_turn_receipt_hash_binds_every_input() {
    let base = turn_receipt_hash(
        BabyBear::new(11),
        BabyBear::new(22),
        BabyBear::new(33),
        BabyBear::new(44),
        BabyBear::new(1),
    );
    let inputs = [
        BabyBear::new(11),
        BabyBear::new(22),
        BabyBear::new(33),
        BabyBear::new(44),
        BabyBear::new(1),
    ];
    for i in 0..inputs.len() {
        let mut flipped = inputs;
        flipped[i] += BabyBear::new(1);
        let v = turn_receipt_hash(flipped[0], flipped[1], flipped[2], flipped[3], flipped[4]);
        assert_ne!(base, v, "receipt-hash input {i} is not bound");
    }
}

#[test]
fn multi_turn_accumulator_is_order_and_position_sensitive() {
    let acc0 = BabyBear::zero();
    let r1 = BabyBear::new(0xAAAA);
    let r2 = BabyBear::new(0xBBBB);

    let acc_12 = extend_turn_accumulator(extend_turn_accumulator(acc0, r1, 0), r2, 1);
    let acc_21 = extend_turn_accumulator(extend_turn_accumulator(acc0, r2, 0), r1, 1);
    assert_ne!(acc_12, acc_21, "reordered receipts must change the folded accumulator");

    assert_ne!(
        extend_turn_accumulator(acc0, r1, 0),
        extend_turn_accumulator(acc0, r1, 1),
        "step index must be bound positionally"
    );
}

#[test]
fn multi_turn_chain_links_receipts_canonically() {
    let summaries = build_turn_chain(4);

    assert_eq!(
        summaries[0].previous_receipt_hash,
        [BabyBear::zero(); AGGREGATE_DIGEST_WIDTH],
        "genesis turn must carry the all-zero inbound link"
    );

    let mut prev_receipt = BabyBear::zero();
    for (i, s) in summaries.iter().enumerate() {
        if i > 0 {
            assert_eq!(
                s.pre_state_root,
                summaries[i - 1].post_state_root,
                "state-root chain break at turn {i}"
            );
            assert_eq!(
                s.previous_receipt_hash,
                TurnTransitionSummary::encode_receipt_link(prev_receipt),
                "receipt link at turn {i} is not the canonical encoding"
            );
            assert_eq!(s.previous_receipt_link(), prev_receipt);
        }
        prev_receipt = turn_receipt_hash(
            s.turn_hash_digest(),
            s.pre_state_root,
            s.post_state_root,
            s.previous_receipt_link(),
            s.bilateral_consistent,
        );
    }
}
