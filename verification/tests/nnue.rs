use shogi_wasm::eval::accumulator::refresh as scratch_refresh;
use shogi_wasm::eval::features::N_FEATURES;
use shogi_wasm::eval::network::{Network, L0, L1};
use shogi_wasm::eval::{Evaluator, Nnue};
use shogi_wasm::mov::Move;
use shogi_wasm::movegen::generate_legal;
use shogi_wasm::sfen::parse_sfen;

/// The float training net's random initialisation followed by quantization, rebuilt
/// here so that the tests run on the same network as the training tools produce.
fn random_net() -> Network {
    let seed: u64 = 0xC0FFEE;
    let mut rng = seed.max(1);
    let mut next = move || {
        rng ^= rng << 13;
        rng ^= rng >> 7;
        rng ^= rng << 17;
        (rng as f64 / u64::MAX as f64) as f32 * 2.0 - 1.0
    };
    let mut ft_weight = vec![0.0f32; N_FEATURES * L0];
    for w in ft_weight.iter_mut() {
        *w = next() * 0.05;
    }
    let mut l1_weight = [[0.0f32; 2 * L0]; L1];
    for row in l1_weight.iter_mut() {
        for w in row.iter_mut() {
            *w = next() * (1.0 / (2.0 * L0 as f32).sqrt());
        }
    }
    let mut l2_weight = [0.0f32; L1];
    for w in l2_weight.iter_mut() {
        *w = next() * (1.0 / (L1 as f32).sqrt());
    }
    let ft_scale: f32 = 127.0;
    let weight_scale: f32 = 64.0;
    let mut q = Network::zeroed();
    for (i, &w) in ft_weight.iter().enumerate() {
        q.ft_weight[i] = (w * ft_scale).round() as i16;
    }
    for k in 0..L1 {
        for i in 0..2 * L0 {
            q.l1_weight[k][i] = (l1_weight[k][i] * weight_scale).round().clamp(-127.0, 127.0) as i8;
        }
    }
    for i in 0..L1 {
        q.l2_weight[i] = (l2_weight[i] * weight_scale).round().clamp(-127.0, 127.0) as i8;
    }
    q
}

#[test]
fn incremental_matches_scratch_recompute_over_random_game() {
    let net = random_net();
    let mut pos = shogi_wasm::position::Position::startpos();
    let mut nnue = Nnue::new(net.clone());
    nnue.refresh(&pos);

    let mut rng: u64 = 0xABCDEF12;
    let mut next = move || {
        rng ^= rng << 13;
        rng ^= rng >> 7;
        rng ^= rng << 17;
        rng
    };

    let mut history: Vec<Move> = Vec::new();
    for _ in 0..300 {
        let status_moves = {
            let mut m = Vec::new();
            generate_legal(&mut pos, &mut m);
            m
        };
        if status_moves.is_empty() {
            break;
        }
        let mv = status_moves[(next() as usize) % status_moves.len()];
        let mover = pos.side_to_move();
        pos.do_move(mv);
        nnue.push(&pos, mv, mover);
        history.push(mv);

        let scratch = scratch_refresh(&pos, &net);
        assert_eq!(nnue.top().unwrap(), scratch, "incremental accumulator diverged from scratch after move {}", history.len());
    }

    for _ in 0..history.len() {
        pos.undo_move();
        nnue.pop();
    }
    let scratch = scratch_refresh(&pos, &net);
    assert_eq!(nnue.top().unwrap(), scratch);
}

#[test]
fn color_mirror_identity() {
    let net = random_net();
    let sfen = "lnsgkgsnl/1r5b1/ppppppppp/9/9/9/PPPPPPPPP/1B5R1/LNSGKGSNL b - 1";
    let pos = parse_sfen(sfen).unwrap();
    let mut nnue = Nnue::new(net);
    nnue.refresh(&pos);
    let e1 = nnue.eval(&pos);

    let sfen_w = "lnsgkgsnl/1r5b1/ppppppppp/9/9/9/PPPPPPPPP/1B5R1/LNSGKGSNL w - 1";
    let pos_w = parse_sfen(sfen_w).unwrap();
    let mut nnue_w = Nnue::new(random_net());
    nnue_w.refresh(&pos_w);
    let e2 = nnue_w.eval(&pos_w);
    assert_eq!(e1, e2, "symmetric position with side-to-move flipped must have equal side-to-move-POV eval");
}

#[test]
fn clamped_weights_keep_the_accumulator_exact() {
    let mut net = Network::zeroed();
    for w in net.ft_weight.iter_mut() {
        *w = 254;
    }
    for b in net.ft_bias.iter_mut() {
        *b = 508;
    }
    let pos = shogi_wasm::position::Position::startpos();
    let frame = scratch_refresh(&pos, &net);
    for p in 0..2 {
        for j in 0..L0 {
            assert_eq!(frame[p][j], 508 + 40 * 254);
        }
    }
}
