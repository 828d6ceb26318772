use neuro_fantasia::analysis::{compared_frames, stft_layout, FFT_SIZE, HOP_SIZE};
use neuro_fantasia::genetic::{
    breed, crossover, crossover_with, draw_flips, elite_count, is_save_generation, next_generation, tournament,
    tournament_winner, BreedingPick, CrossoverFlips, TOURNAMENT_SIZE,
};
use neuro_fantasia::resources::{WavetableBank, TABLE_SIZE};
use neuro_fantasia::synth::PatchGenome;

fn genome(base: u32) -> PatchGenome<u32> {
    PatchGenome {
        osc1_idx: base,
        osc2_idx: base + 1,
        detune: base + 2,
        osc_mix: base + 3,
        noise_mix: base + 4,
        attack: base + 5,
        decay: base + 6,
        sustain: base + 7,
        release: base + 8,
        cutoff: base + 9,
        resonance: base + 10,
        filter_type: base + 11,
        filter_env_amt: base + 12,
        lfo_rate: base + 13,
        lfo_amt_pitch: base + 14,
        lfo_amt_cutoff: base + 15,
        drive: base + 16,
        master_vol: base + 17,
    }
}

fn genes(g: &PatchGenome<u32>) -> [u32; 18] {
    [
        g.osc1_idx, g.osc2_idx, g.detune, g.osc_mix, g.noise_mix, g.attack, g.decay, g.sustain,
        g.release, g.cutoff, g.resonance, g.filter_type, g.filter_env_amt, g.lfo_rate,
        g.lfo_amt_pitch, g.lfo_amt_cutoff, g.drive, g.master_vol,
    ]
}

fn no_flips() -> CrossoverFlips {
    CrossoverFlips {
        osc1_idx: false,
        osc2_idx: false,
        detune: false,
        osc_mix: false,
        noise_mix: false,
        envelope: false,
        filter: false,
        lfo: false,
        drive: false,
    }
}

#[test]
fn layout_of_two_seconds() {
    let l = stft_layout(88200, FFT_SIZE, HOP_SIZE);
    assert_eq!(l.padded_len, 88200);
    assert_eq!(l.num_frames, 169);
    assert_eq!(l.num_bins, 1024);
    assert_eq!(l.frame_range(0), (0, 2048));
    assert_eq!(l.frame_range(168), (86016, 88064));
}

#[test]
fn short_audio_is_padded_to_one_window() {
    let l = stft_layout(1000, FFT_SIZE, HOP_SIZE);
    assert_eq!(l.padded_len, 2048);
    assert_eq!(l.num_frames, 1);
    let empty = stft_layout(0, FFT_SIZE, HOP_SIZE);
    assert_eq!(empty.padded_len, 2048);
    assert_eq!(empty.num_frames, 1);
}

#[test]
fn exactly_one_window() {
    let l = stft_layout(2048, FFT_SIZE, HOP_SIZE);
    assert_eq!(l.num_frames, 1);
    let l = stft_layout(2560, FFT_SIZE, HOP_SIZE);
    assert_eq!(l.num_frames, 2);
    let l = stft_layout(2559, FFT_SIZE, HOP_SIZE);
    assert_eq!(l.num_frames, 1);
}

#[test]
fn frames_stay_inside_the_signal() {
    for len in [0usize, 1, 2047, 2048, 2049, 3000, 10_000, 88_200] {
        let l = stft_layout(len, FFT_SIZE, HOP_SIZE);
        for f in 0..l.num_frames {
            let (s, e) = l.frame_range(f);
            assert_eq!(e - s, FFT_SIZE);
            assert!(e <= l.padded_len);
        }
        assert!(l.num_frames * HOP_SIZE + FFT_SIZE > l.padded_len);
    }
}

#[test]
fn compared_frames_takes_the_shorter() {
    assert_eq!(compared_frames(3, 5), Some(3));
    assert_eq!(compared_frames(7, 2), Some(2));
    assert_eq!(compared_frames(4, 4), Some(4));
}

#[test]
fn compared_frames_punishes_empty() {
    assert_eq!(compared_frames(0, 5), None);
    assert_eq!(compared_frames(5, 0), None);
    assert_eq!(compared_frames(0, 0), None);
}

#[test]
fn bank_sorts_loaded_tables_by_brightness() {
    let candidates = vec![
        ("bright".to_string(), Some((9u64, vec![1i32, 2]))),
        ("broken".to_string(), None),
        ("dark".to_string(), Some((2u64, vec![3i32]))),
        ("mid".to_string(), Some((5u64, vec![4i32]))),
    ];
    let bank = WavetableBank::from_loaded(candidates, vec![9]);
    assert_eq!(bank.len(), 3);
    assert_eq!(bank.names, vec!["dark".to_string(), "mid".to_string(), "bright".to_string()]);
    assert_eq!(*bank.get(0), vec![3]);
    assert_eq!(*bank.get(1), vec![4]);
    assert_eq!(*bank.get(2), vec![1, 2]);
}

#[test]
fn bank_keeps_found_order_for_equal_brightness() {
    let candidates = vec![
        ("a".to_string(), Some((4u64, vec![1u8]))),
        ("b".to_string(), Some((1u64, vec![2u8]))),
        ("c".to_string(), Some((4u64, vec![3u8]))),
        ("d".to_string(), Some((1u64, vec![4u8]))),
    ];
    let bank = WavetableBank::from_loaded(candidates, vec![0]);
    assert_eq!(
        bank.names,
        vec!["b".to_string(), "d".to_string(), "a".to_string(), "c".to_string()]
    );
    assert_eq!(*bank.get(2), vec![1]);
}

#[test]
fn bank_falls_back_when_nothing_loads() {
    let candidates = vec![("broken".to_string(), None::<(u64, Vec<i32>)>)];
    let bank = WavetableBank::from_loaded(candidates, vec![7, 8]);
    assert_eq!(bank.len(), 1);
    assert_eq!(bank.names, vec!["fallback_saw".to_string()]);
    assert_eq!(*bank.get(0), vec![7, 8]);
    let empty: Vec<(String, Option<(u64, Vec<i32>)>)> = Vec::new();
    let bank = WavetableBank::from_loaded(empty, vec![5]);
    assert_eq!(bank.names, vec!["fallback_saw".to_string()]);
}

#[test]
fn bank_get_wraps_around() {
    let candidates = vec![
        ("a".to_string(), Some((1u64, vec![10u8]))),
        ("b".to_string(), Some((2u64, vec![20u8]))),
        ("c".to_string(), Some((3u64, vec![30u8]))),
    ];
    let bank = WavetableBank::from_loaded(candidates, vec![0]);
    assert_eq!(*bank.get(3), vec![10]);
    assert_eq!(*bank.get(7), vec![20]);
    assert_eq!(*bank.get(5), *bank.get(2));
}

#[test]
fn new_bank_is_empty() {
    let bank: WavetableBank<f32> = WavetableBank::new();
    assert_eq!(bank.len(), 0);
    assert!(bank.names.is_empty());
    assert_eq!(TABLE_SIZE, 2048);
}

#[test]
fn crossover_without_flips_is_first_parent() {
    let c = crossover_with(&genome(0), &genome(100), no_flips());
    assert_eq!(genes(&c), genes(&genome(0)));
}

#[test]
fn crossover_flips_move_whole_groups() {
    let mut f = no_flips();
    f.envelope = true;
    f.osc_mix = true;
    let c = crossover_with(&genome(0), &genome(100), f);
    assert_eq!(c.osc_mix, 103);
    assert_eq!((c.attack, c.decay, c.sustain, c.release), (105, 106, 107, 108));
    assert_eq!(c.cutoff, 9);
    assert_eq!(c.master_vol, 17);
}

#[test]
fn crossover_all_flips_keeps_first_master_volume() {
    let f = CrossoverFlips {
        osc1_idx: true,
        osc2_idx: true,
        detune: true,
        osc_mix: true,
        noise_mix: true,
        envelope: true,
        filter: true,
        lfo: true,
        drive: true,
    };
    let c = crossover_with(&genome(0), &genome(100), f);
    let mut expected = genes(&genome(100));
    expected[17] = 17;
    assert_eq!(genes(&c), expected);
}

#[test]
fn crossover_with_itself_is_identity() {
    let mut rng = rand::thread_rng();
    for _ in 0..20 {
        let c = crossover(&genome(40), &genome(40), &mut rng);
        assert_eq!(genes(&c), genes(&genome(40)));
    }
}

#[test]
fn random_crossover_mixes_both_parents() {
    let mut rng = rand::thread_rng();
    let mut from_second = 0;
    for _ in 0..200 {
        let c = crossover(&genome(0), &genome(100), &mut rng);
        let g = genes(&c);
        assert_eq!(g[17], 17);
        for (i, v) in g.iter().enumerate() {
            assert!(*v == i as u32 || *v == 100 + i as u32);
            if *v >= 100 {
                from_second += 1;
            }
        }
        assert_eq!(g[5] >= 100, g[8] >= 100);
        assert_eq!(g[9] >= 100, g[12] >= 100);
        assert_eq!(g[13] >= 100, g[15] >= 100);
    }
    assert!(from_second > 0);
    assert!(from_second < 200 * 17);
}

#[test]
fn elite_count_is_a_tenth() {
    assert_eq!(elite_count(100), 10);
    assert_eq!(elite_count(19), 1);
    assert_eq!(elite_count(9), 0);
}

#[test]
fn tournament_winner_is_best_rank() {
    assert_eq!(tournament_winner(&vec![7]), 7);
    assert_eq!(tournament_winner(&vec![4, 2]), 2);
    assert_eq!(tournament_winner(&vec![3, 9, 1, 5]), 1);
    assert_eq!(tournament_winner(&vec![6, 6]), 6);
}

#[test]
fn tournament_draws_from_whole_population() {
    let mut rng = rand::thread_rng();
    let mut seen = [0usize; 10];
    for _ in 0..4000 {
        let w = tournament(&mut rng, 10);
        assert!(w < 10);
        seen[w] += 1;
    }
    // the worst rank wins only when drawn twice: rare but possible;
    // ranks in the worse half do win
    assert!(seen[5..].iter().sum::<usize>() > 0);
    assert!(seen[0] > seen[9]);
    assert_eq!(TOURNAMENT_SIZE, 2);
    assert_eq!(tournament(&mut rng, 1), 0);
}

#[test]
fn breed_keeps_elites_and_follows_picks() {
    let ranked: Vec<PatchGenome<u32>> = (0..12).map(|i| genome(i * 1000)).collect();
    let mut f = no_flips();
    f.filter = true;
    let picks = vec![
        BreedingPick { parent1: 11, parent2: 0, flips: no_flips() },
        BreedingPick { parent1: 3, parent2: 7, flips: f },
    ];
    let next = breed(&ranked, &picks);
    assert_eq!(next.len(), 3);
    assert_eq!(genes(&next[0]), genes(&ranked[0]));
    assert_eq!(genes(&next[1]), genes(&ranked[11]));
    let c = next[2];
    assert_eq!(c.attack, 3005);
    assert_eq!(c.cutoff, 7009);
    assert_eq!(c.filter_env_amt, 7012);
    assert_eq!(c.master_vol, 3017);
}

#[test]
fn draw_flips_are_random() {
    let mut rng = rand::thread_rng();
    let mut trues = 0;
    for _ in 0..200 {
        if draw_flips(&mut rng).envelope {
            trues += 1;
        }
    }
    assert!(trues > 0 && trues < 200);
}

#[test]
fn save_schedule() {
    assert!(is_save_generation(0, 10));
    assert!(!is_save_generation(5, 10));
    assert!(is_save_generation(20, 10));
    assert!(is_save_generation(3, 1));
}

#[test]
fn next_generation_keeps_size_and_elites() {
    let ranked: Vec<PatchGenome<u32>> = (0..30).map(|i| genome(i * 1000)).collect();
    let mut rng = rand::thread_rng();
    let mut from_worse_half = false;
    for _ in 0..20 {
        let next = next_generation(&ranked, &mut rng);
        assert_eq!(next.len(), 30);
        for i in 0..3 {
            assert_eq!(genes(&next[i]), genes(&ranked[i]));
        }
        for child in &next[3..] {
            for (k, v) in genes(child).iter().enumerate() {
                let parent = (*v - k as u32) / 1000;
                assert!(parent < 30);
                assert_eq!(*v, parent * 1000 + k as u32);
                if parent >= 15 {
                    from_worse_half = true;
                }
            }
        }
    }
    assert!(from_worse_half);
}

#[test]
fn next_generation_of_small_populations() {
    let mut rng = rand::thread_rng();
    let empty: Vec<PatchGenome<u32>> = Vec::new();
    assert!(next_generation(&empty, &mut rng).is_empty());
    let single = vec![genome(0)];
    let next = next_generation(&single, &mut rng);
    assert_eq!(next.len(), 1);
    assert_eq!(genes(&next[0]), genes(&genome(0)));
    let pair = vec![genome(0), genome(1000)];
    assert_eq!(next_generation(&pair, &mut rng).len(), 2);
}
