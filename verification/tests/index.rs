use hnsw_index::height::layer_height;
use hnsw_index::index::Hnsw;
use hnsw_index::layer::Layer;
use hnsw_index::metric::{dice, distance_of_bits};
use hnsw_index::model::Hit;
use hnsw_index::search::{least_position, precedes, take_least};

const FRUITS: [&str; 4] = ["apple", "orange", "banana", "lemon"];

#[test]
fn it() {
    let mut h = Hnsw::new();
    for fruit in ["apple", "orange", "banana", "lemon"] {
        h.insert(fruit);
    }
    for fruit in ["apple", "orange", "banana", "lemon"] {
        assert_eq!(fruit, h.nearest(fruit, 1)[0].0);
    }
}

#[test]
fn self_match_has_distance_zero() {
    let mut h = Hnsw::new();
    for fruit in FRUITS {
        h.insert(fruit);
    }
    for fruit in FRUITS {
        assert_eq!(h.nearest(fruit, 1), vec![(fruit, 0usize)]);
    }
}

#[test]
fn self_match_at_every_height() {
    for height in 0..10 {
        for other in 0..10 {
            let mut h = Hnsw::new();
            h.insert_at("apple", other);
            h.insert_at("orange", height);
            h.insert_at("banana", (height + other) % 10);
            h.insert_at("lemon", 0);
            for fruit in FRUITS {
                assert_eq!(h.nearest(fruit, 1), vec![(fruit, 0usize)]);
            }
        }
    }
}

#[test]
fn self_match_in_any_order() {
    let orders: [[usize; 4]; 4] = [[0, 1, 2, 3], [3, 2, 1, 0], [1, 3, 0, 2], [2, 0, 3, 1]];
    for order in orders {
        let mut h = Hnsw::new();
        for (step, which) in order.iter().enumerate() {
            h.insert_at(FRUITS[*which], (step * 3) % 10);
        }
        for fruit in FRUITS {
            assert_eq!(h.nearest(fruit, 1), vec![(fruit, 0usize)]);
        }
    }
}

#[test]
fn found_right_after_insertion() {
    let mut h = Hnsw::new();
    let words = ["night", "nacht", "noche", "nuit", "notte", "natt", "nox"];
    for (step, word) in words.iter().enumerate() {
        h.insert_at(word, (step * 7) % 10);
        assert_eq!(h.nearest(word, 1), vec![(*word, 0usize)]);
        assert_eq!(h.layer(0).len(), step + 1);
        assert_eq!(h.layer(0).item(step), *word);
    }
}

#[test]
fn empty_index_answers_nothing() {
    let h = Hnsw::new();
    assert!(h.nearest("apple", 3).is_empty());
    assert!(h.nearest("", 0).is_empty());
    assert!(h.entry("apple").is_empty());
}

#[test]
fn result_has_as_many_entries_as_asked_or_stored() {
    let mut h = Hnsw::new();
    for fruit in FRUITS {
        h.insert(fruit);
    }
    assert_eq!(h.nearest("apple", 0).len(), 0);
    assert_eq!(h.nearest("apple", 1).len(), 1);
    assert_eq!(h.nearest("apple", 3).len(), 3);
    assert_eq!(h.nearest("apple", 4).len(), 4);
    assert_eq!(h.nearest("apple", 100).len(), 4);
}

#[test]
fn a_text_stored_twice_is_one_item() {
    let mut h = Hnsw::new();
    h.insert_at("apple", 0);
    h.insert_at("apple", 2);
    h.insert_at("lemon", 1);
    assert_eq!(h.layer(0).len(), 3);
    let all = h.nearest("apple", 10);
    assert_eq!(all.len(), 2);
    assert_eq!(all[0], ("apple", 0usize));
    assert_eq!(all[1], ("lemon", 13835058055282163711usize));
}

#[test]
fn distances_ascend() {
    let mut h = Hnsw::new();
    let words = ["night", "nacht", "noche", "nuit", "notte", "natt", "nox", "nightly", "knight"];
    for (step, word) in words.iter().enumerate() {
        h.insert_at(word, (step * 3) % 10);
    }
    let found = h.nearest("night", 9);
    assert_eq!(found.len(), 9);
    for pair in found.windows(2) {
        assert!(pair[0].1 <= pair[1].1);
    }
    for (text, dist) in found {
        assert_eq!(dist, dice("night", text));
    }
}

#[test]
fn exact_answer_on_a_small_index() {
    let mut h = Hnsw::new();
    h.insert_at("apple", 0);
    h.insert_at("apply", 3);
    h.insert_at("lemon", 1);
    h.insert_at("orange", 0);
    assert_eq!(
        h.nearest("apple", 3),
        vec![
            ("apple", 0usize),
            ("apply", 4611686018427387904usize),
            ("lemon", 13835058055282163711usize)
        ]
    );
}

#[test]
fn ties_go_to_the_text_stored_first() {
    let mut h = Hnsw::new();
    h.insert_at("orange", 0);
    h.insert_at("banana", 4);
    h.insert_at("lemon", 0);
    assert_eq!(
        h.nearest("xyz", 3),
        vec![("orange", usize::MAX), ("banana", usize::MAX), ("lemon", usize::MAX)]
    );
}

#[test]
fn first_insertion_has_no_neighbors() {
    for height in 0..10 {
        let mut h = Hnsw::new();
        h.insert_at("apple", height);
        for i in 0..10 {
            let layer = h.layer(i);
            if i <= height {
                assert_eq!(layer.len(), 1);
                assert_eq!(layer.item(0), "apple");
                assert!(layer.neighbors(0).is_empty());
            } else {
                assert_eq!(layer.len(), 0);
            }
        }
    }
}

#[test]
fn insertion_reaches_every_layer_below_its_height() {
    let mut h = Hnsw::new();
    h.insert_at("apple", 3);
    h.insert_at("lemon", 1);
    h.insert_at("orange", 9);
    let sizes: Vec<usize> = (0..10).map(|i| h.layer(i).len()).collect();
    assert_eq!(sizes, vec![3, 3, 2, 2, 1, 1, 1, 1, 1, 1]);
    assert_eq!(h.entry("orange"), vec![("orange", 0usize)]);
}

#[test]
fn random_insertion_stores_at_the_bottom() {
    let mut h = Hnsw::new();
    for round in 0..40 {
        let word = format!("word{}", round);
        h.insert(&word);
        assert_eq!(h.layer(0).len(), round + 1);
        assert_eq!(h.layer(0).item(round), word);
        for i in 1..10 {
            assert!(h.layer(i).len() <= h.layer(i - 1).len());
        }
    }
}

#[test]
fn edges_run_both_ways() {
    let mut h = Hnsw::new();
    let words = ["night", "nacht", "noche", "nuit", "notte", "natt", "nox"];
    for (step, word) in words.iter().enumerate() {
        h.insert_at(word, step % 3);
    }
    for i in 0..10 {
        let layer = h.layer(i);
        for p in 0..layer.len() {
            for q in layer.neighbors(p) {
                assert!(*q < layer.len());
                assert!(layer.neighbors(*q).contains(&p));
            }
        }
    }
    assert_eq!(h.layer(0).neighbors(0).len(), 6);
}

#[test]
fn layer_push_and_lookup() {
    let mut layer = Layer::new();
    assert_eq!(layer.len(), 0);
    assert_eq!(layer.index_of("apple"), None);
    assert_eq!(layer.push("apple"), 0);
    assert_eq!(layer.push(""), 1);
    assert_eq!(layer.push("apple"), 2);
    assert_eq!(layer.len(), 3);
    assert_eq!(layer.index_of("apple"), Some(2));
    assert_eq!(layer.index_of(""), Some(1));
    assert_eq!(layer.index_of("lemon"), None);
    assert_eq!(layer.item(1), "");
    assert_eq!(layer.hash("apple"), layer.hash("apple"));
    assert_ne!(layer.hash("apple"), layer.hash("lemon"));
}

#[test]
fn layer_scores_every_text() {
    let mut layer = Layer::new();
    for fruit in FRUITS {
        layer.push(fruit);
    }
    assert_eq!(
        layer.all("apple"),
        vec![
            ("apple", 0usize),
            ("orange", usize::MAX),
            ("banana", usize::MAX),
            ("lemon", 13835058055282163711usize)
        ]
    );
}

#[test]
fn layer_insert_links_the_nearest() {
    let mut layer = Layer::new();
    let none: Vec<usize> = Vec::new();
    assert!(layer.insert("apple", &none, 2).is_empty());
    let first = layer.insert("apply", &none, 2);
    assert_eq!(first.len(), 1);
    assert_eq!((first[0].pos, first[0].dist), (0, 4611686018427387904usize));
    let second = layer.insert("lemon", &none, 2);
    assert_eq!(second.len(), 2);
    assert_eq!((second[0].pos, second[1].pos), (0, 1));
    let third = layer.insert("apple pie", &vec![2], 2);
    assert_eq!((third[0].pos, third[1].pos), (0, 1));
    assert_eq!(layer.neighbors(3), &vec![0, 1]);
    assert_eq!(layer.neighbors(0), &vec![1, 2, 3]);
    assert_eq!(layer.neighbors(2), &vec![0, 1]);
}

#[test]
fn layer_search_is_greedy() {
    let mut layer = Layer::new();
    for word in ["aaaa", "aaab", "zzzz", "aabb"] {
        layer.push(word);
    }
    layer.link(2, 1);
    layer.link(1, 0);
    layer.link(2, 3);
    let from_far = layer.search("aaaa", &vec![2], 10);
    let found: Vec<usize> = from_far.iter().map(|hit| hit.pos).collect();
    assert_eq!(found, vec![0, 1, 3, 2]);
    let from_near = layer.search("aaaa", &vec![3], 10);
    let found: Vec<usize> = from_near.iter().map(|hit| hit.pos).collect();
    assert_eq!(found, vec![3, 2]);
    let scan = layer.search("aaaa", &Vec::new(), 2);
    let found: Vec<usize> = scan.iter().map(|hit| hit.pos).collect();
    assert_eq!(found, vec![0, 1]);
    let outside = layer.search("aaaa", &vec![17], 2);
    assert!(outside.is_empty());
}

#[test]
fn layer_nearest_reads_texts_only() {
    let mut layer = Layer::new();
    for fruit in FRUITS {
        layer.push(fruit);
    }
    let found = layer.nearest("apple", &vec![("lemon", 7usize), ("pear", 0usize)], 3);
    assert_eq!(found, vec![("lemon", 13835058055282163711usize)]);
    let scan = layer.nearest("apple", &Vec::new(), 2);
    assert_eq!(scan, vec![("apple", 0usize), ("lemon", 13835058055282163711usize)]);
    assert_eq!(layer.locate(&vec![("lemon", 1usize), ("pear", 2usize), ("apple", 3usize)]), vec![3, 0]);
}

#[test]
fn distance_is_symmetric() {
    let words = ["", "a", "apple", "apply", "night", "nacht", "a b", "ab"];
    for a in words {
        for b in words {
            assert_eq!(dice(a, b), dice(b, a));
        }
        assert_eq!(dice(a, a), 0);
    }
}

#[test]
fn distance_values() {
    assert_eq!(dice("", ""), 0);
    assert_eq!(dice("", "a"), usize::MAX);
    assert_eq!(dice("a", ""), usize::MAX);
    assert_eq!(dice("french", "quebec"), usize::MAX);
    assert_eq!(dice("ferris", "ferris"), 0);
    assert_eq!(dice("feris", "ferris"), 2049638230412173312);
    assert_eq!(dice("apple", "apply"), 4611686018427387904);
    assert_eq!(dice("apple", "lemon"), 13835058055282163711);
    assert_eq!(dice("orange", "banana"), 14757395258967641087);
    assert_eq!(dice("aba", "bab"), 0);
    assert_eq!(dice("a b", "ab"), 0);
}

#[test]
fn distance_from_coefficient_bits() {
    assert_eq!(distance_of_bits(0x3ff0_0000_0000_0000), 0);
    assert_eq!(distance_of_bits(0x3fe0_0000_0000_0000), 9223372036854775808);
    assert_eq!(distance_of_bits(0x3fd0_0000_0000_0000), 13835058055282163711);
    assert_eq!(distance_of_bits(0x3fec_71c7_1c71_c71c), 2049638230412173312);
    assert_eq!(distance_of_bits(0x3fe5_5555_5555_5555), 6148914691236517888);
    assert_eq!(distance_of_bits(0), usize::MAX);
    assert_eq!(distance_of_bits(1), usize::MAX);
    assert_eq!(distance_of_bits(0x3be0_0000_0000_0000), usize::MAX);
    assert_eq!(distance_of_bits(0x3bf0_0000_0000_0000), usize::MAX - 1);
    assert_eq!(distance_of_bits(0x3c00_0000_0000_0000), usize::MAX - 2);
    assert_eq!(distance_of_bits(0x3fef_ffff_ffff_ffff), 2048);
    assert_eq!(distance_of_bits(0x4000_0000_0000_0000), 0);
    assert_eq!(distance_of_bits(0x7ff8_0000_0000_0000), 0);
    assert_eq!(distance_of_bits(0x8000_0000_0000_0000), usize::MAX);
    assert_eq!(distance_of_bits(0xbff0_0000_0000_0000), usize::MAX);
}

#[test]
fn heights_follow_the_thresholds() {
    assert_eq!(layer_height(u64::MAX), 0);
    assert_eq!(layer_height(3484139907312112814), 0);
    assert_eq!(layer_height(3484139907312112813), 1);
    assert_eq!(layer_height(658069025363982135), 1);
    assert_eq!(layer_height(658069025363982134), 2);
    assert_eq!(layer_height(5642901817851), 8);
    assert_eq!(layer_height(5642901817850), 9);
    assert_eq!(layer_height(1065806482599), 9);
    assert_eq!(layer_height(1065806482598), 0);
    assert_eq!(layer_height(201304841908), 1);
    assert_eq!(layer_height(2), 5);
    assert_eq!(layer_height(1), 6);
    assert_eq!(layer_height(0), 6);
}

#[test]
fn hits_are_ordered_by_distance_then_position() {
    let a = Hit { pos: 3, dist: 5 };
    let b = Hit { pos: 1, dist: 7 };
    let c = Hit { pos: 0, dist: 7 };
    assert!(precedes(a, b));
    assert!(!precedes(b, a));
    assert!(precedes(c, b));
    assert!(!precedes(b, b));
    let list = vec![b, a, c];
    assert_eq!(least_position(&list), 1);
    let best: Vec<(usize, usize)> =
        take_least(list.clone(), 2).iter().map(|hit| (hit.pos, hit.dist)).collect();
    assert_eq!(best, vec![(3, 5), (0, 7)]);
    assert_eq!(take_least(list.clone(), 5).len(), 3);
    assert!(take_least(list, 0).is_empty());
}

fn coded(prefix: &str, letters: &str, which: usize) -> String {
    let letters: Vec<char> = letters.chars().collect();
    let mut text = String::from(prefix);
    text.push(letters[which / letters.len()]);
    text.push(letters[which % letters.len()]);
    text
}

#[test]
fn a_walk_stops_where_no_neighbor_is_nearer() {
    let query = "abcdefgh";
    let mut h = Hnsw::new();
    h.insert_at("ab0000", 1);
    for i in 0..50 {
        h.insert_at(&coded("zq", "ijklmnop", i), 0);
    }
    for i in 0..50 {
        h.insert_at(&coded("cdefghzq", "rstuvwxy", i), 0);
    }
    h.insert_at(query, 0);
    assert_eq!(h.layer(0).len(), 102);
    assert_eq!(h.layer(0).index_of(query), Some(101));
    assert_eq!(h.layer(0).neighbors(101).len(), 50);
    assert!(!h.layer(0).neighbors(101).contains(&0));
    let far = dice(query, "ab0000");
    assert!(dice(query, "cdefghzqrr") < far);
    assert!(far < usize::MAX);
    assert_eq!(h.nearest(query, 1), vec![("ab0000", far)]);
    let all = h.nearest(query, 1000);
    assert_eq!(all.len(), 50);
    assert!(all.iter().all(|entry| entry.0 != query));
    assert!(all[1..].iter().all(|entry| entry.1 == usize::MAX));
}

#[test]
fn an_answer_has_as_many_entries_as_the_bottom_layer_hands_on() {
    let mut h = Hnsw::new();
    for i in 0..50 {
        h.insert_at(&coded("zq", "ijklmnop", i), 0);
    }
    assert_eq!(h.nearest("zq", 50).len(), 50);
    assert_eq!(h.nearest("zq", 51).len(), 50);
    h.insert_at("zqzq", 0);
    assert_eq!(h.nearest("zq", 50).len(), 50);
    assert_eq!(h.nearest("zq", 51).len(), 50);
    assert_eq!(h.nearest("zq", 7).len(), 7);
}

#[test]
fn heights_agree_with_the_logarithm() {
    let mut draw: u64 = 0x9e37_79b9_7f4a_7c15;
    let mut counts = [0usize; 10];
    for round in 0..20000u64 {
        draw = draw.wrapping_mul(6364136223846793005).wrapping_add(1442695040888963407);
        let sample = if round % 4 == 3 { draw >> (round % 64) } else { draw };
        let u = (sample as f64 + 1.0) / 18446744073709551616.0;
        let expected = ((-u.ln() * 0.6) as usize) % 10;
        let height = layer_height(sample);
        assert!(height < 10);
        if height != expected {
            let below = (-((sample as f64 + 2.0) / 18446744073709551616.0).ln() * 0.6) as usize % 10;
            let above = (-((sample as f64) / 18446744073709551616.0).ln() * 0.6) as usize % 10;
            assert!(height == below || height == above);
        }
        if round % 4 != 3 {
            counts[height] += 1;
        }
    }
    assert!(counts[0] > 11500 && counts[0] < 12900);
    assert!(counts[1] > 1900 && counts[1] < 2700);
    assert!(counts[0] + counts[1] + counts[2] > 14800);
}

#[test]
fn texts_at_distance_zero_are_told_apart_by_their_order() {
    let mut h = Hnsw::new();
    h.insert_at("aba", 0);
    h.insert_at("bab", 2);
    assert_eq!(h.nearest("aba", 1), vec![("aba", 0usize)]);
    assert_eq!(h.nearest("bab", 1), vec![("aba", 0usize)]);
    assert_eq!(h.nearest("bab", 2), vec![("aba", 0usize), ("bab", 0usize)]);
}

#[test]
fn layer_nearest_finds_nothing_where_no_seed_is_stored() {
    let mut layer = Layer::new();
    layer.push("ab");
    assert_eq!(layer.index_of("zz"), None);
    assert!(layer.locate(&vec![("zz", 5usize)]).is_empty());
    assert!(layer.nearest("ab", &vec![("zz", 5usize)], 3).is_empty());
    assert!(layer.nearest("ab", &vec![("zz", usize::MAX), ("yy", 1usize)], 3).is_empty());
    assert_eq!(layer.nearest("ab", &Vec::new(), 3), vec![("ab", 0usize)]);
    assert_eq!(
        layer.nearest("ab", &vec![("zz", 5usize), ("ab", 9usize)], 3),
        vec![("ab", 0usize)]
    );
    let mut fruits = Layer::new();
    for fruit in FRUITS {
        fruits.push(fruit);
    }
    fruits.link(0, 3);
    assert!(fruits.nearest("apple", &vec![("pear", 0usize)], 4).is_empty());
    assert_eq!(
        fruits.nearest("apple", &vec![("pear", 0usize), ("lemon", 0usize)], 4),
        vec![("apple", 0usize), ("lemon", 13835058055282163711usize)]
    );
    let empty = Layer::new();
    assert!(empty.nearest("ab", &vec![("zz", 5usize)], 3).is_empty());
    assert!(empty.nearest("ab", &Vec::new(), 3).is_empty());
}
