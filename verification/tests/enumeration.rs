use ogr_rust::{
    enumerate_golomb_rulers, enumerate_golomb_rulers_depth_with_length,
    enumerate_golomb_rulers_pruned_with_length, enumerate_golomb_rulers_with_length,
    enumerate_pruned_rulers, enumerate_rulers, enumerate_rulers_with_length,
    enumerate_rulers_with_order, GolombRuler, RulerState,
};

#[test]
fn mod_test() {
    let my_bool: Vec<bool> = vec![true, true, false];
    println!("{:?}", my_bool.to_u64());
    assert_eq!(my_bool.count_marks(), 2);
    println!("{:?}", my_bool.to_string());
}

#[test]
fn enumerations_test() {
    let my_bool: Vec<bool> = vec![true, true, false];
    println!("{:?}", my_bool.to_u64());
    assert_eq!(my_bool.count_marks(), 2);
    println!("{:?}", my_bool.to_string());
}

#[test]
fn test_enum() {
    let r_o3_l3 = enumerate_golomb_rulers(2, 3);

    for r in r_o3_l3 {
        println!("{}", r.to_string());
    }

    let rulers_2_3 = enumerate_rulers(3);
    for r in rulers_2_3 {
        println!("{}", r.to_string());
    }

    let r2 = enumerate_rulers_with_length(2);
    println!("========= Length 2 ===========");
    for r in r2 {
        println!("{}", r.to_string());
    }

    let r3 = enumerate_rulers_with_length(3);
    println!("========= Length 3 ===========");
    for r in r3 {
        println!("{}", r.to_string());
    }

    let r4 = enumerate_rulers_with_length(4);
    println!("========= Length 4 ===========");
    for r in r4 {
        println!("{}", r.to_string());
    }

    println!("========= G 3_10 ===========");
    let g4 = enumerate_golomb_rulers(3, 10);
    for r in g4 {
        println!("{}", r.to_string())
    }

    println!("======== Ruler 3_10 ========");
    let r_3_10 = enumerate_rulers_with_order(3, 10);
    for r in r_3_10.iter() {
        println!("{}", r.to_string());
    }

    // For a single length, let's count the number of values at each order
    let mut lengths: Vec<(usize, usize)> = Vec::new();
    let order_range = 2..10;
    for order in order_range.clone() {
        lengths.push((order, enumerate_golomb_rulers(order, 15).len()));
    }

    for r in lengths {
        println!("{:?}", r)
    }
}

/// Verify that all rulers are being enumerated
#[test]
fn gen_rulers() {
    let length = 10;
    let rulers = enumerate_rulers_with_length(length);

    let rulers: Vec<&GolombRuler> = rulers.iter().filter(|r| r.is_golomb_ruler()).collect();

    for r in &rulers {
        println!("{}", r.to_string())
    }
    println!("N rulers: {}", rulers.len());
}

#[test]
fn gen_pruned() {
    let length = 5;
    let order = 3;
    let rulers = enumerate_pruned_rulers(order, length);

    for r in &rulers {
        println!("{}", r.to_string());
    }
}

#[test]
fn test_jump_back() {
    let test: Vec<bool> = vec![false, true, false];

    println!("{:?}", &test);
    println!("{:?}", test.jump_back());
}

#[test]
fn test_ruler() {
    let rulers_3 = enumerate_rulers_with_length(3);
    for r in rulers_3 {
        println!("{}", r.to_string());
    }
}

#[test]
fn test_ids() {
    let rulers_3 = enumerate_rulers(3);
    for r in rulers_3 {
        println!("[{:?}] Ruler: {};", r.to_id().unwrap(), r.to_string());
    }
}

#[test]
fn test_from_id() {
    let first = GolombRuler::from_id(0);
    println!("{}", first.to_string());

    let second = GolombRuler::from_id(1);
    println!("{}", second.to_string());

    let third = GolombRuler::from_id(2);
    println!("{}", third.to_string());

    let third = GolombRuler::from_id(3);
    println!("{}", third.to_string());

    let fourth = GolombRuler::from_id(4);
    println!("{}", fourth.to_string());

    for i in 0..10 {
        println!("[{:02}] {}", i, GolombRuler::from_id(i).to_string());
    }
}

#[test]
fn sample_rulers() {
    let max_range = 1000;

    let rulers = (0..max_range).map(GolombRuler::from_id).collect::<Vec<GolombRuler>>();
    let rulers_is_golom: Vec<(&GolombRuler, bool)> =
        rulers.iter().map(|r| (r, r.is_golomb_ruler())).collect();

    let mut golomb_rulers: Vec<usize> = Vec::new();

    for (idx, pair) in rulers_is_golom.iter().enumerate() {
        println!("{}, {:?}", idx, pair);
        if pair.1 {
            golomb_rulers.push(idx)
        }
    }

    println!("Only {} golomb rulers out of {}!", golomb_rulers.len(), max_range);

    println!("Golomb Rulers: {:?}", golomb_rulers);
}

#[test]
fn stats() {
    let max_range = 100;
    let rulers = GolombRuler::from_ids(0, max_range);
    let golomb_rulers =
        rulers.iter().filter(|r| r.is_golomb_ruler()).collect::<Vec<&GolombRuler>>();

    println!("Num golomb rulers {}/{}", golomb_rulers.len(), max_range);
    println!("{:?}", golomb_rulers);

    for g in golomb_rulers {
        println!("g: {}, order: {}", g.to_string(), g.order());
    }
}

/// Verify that our `contains` function for `Vec<bool>` works properly
#[test]
fn test_contains() {
    let ruler = GolombRuler::from_id(10);
    println!("Ruler: {}", ruler.to_string());

    let state = ruler.to_state();
    assert!(state.contains(0));
    assert!(state.contains(2));
    assert!(state.contains(4));
    assert!(!state.contains(5));
    assert!(!state.contains(10));
    assert!(!state.contains(200));
    assert!(!state.contains(-2));
}

#[test]
fn test_propery_order_1() {
    let ruler = GolombRuler::from_id(10);
    println!("Ruler: {}", ruler.to_string());

    let r_09 = GolombRuler::from_id(9);
    println!("Ruler: {}", r_09.to_string());

    assert!(!ruler.is_golomb_ruler_order_1());
    assert!(r_09.is_golomb_ruler_order_1());
}

#[test]
fn add_mark_unit() {
    let ruler = GolombRuler::from_id(22528);
    println!("{}", ruler.to_string());
}

#[test]
fn add_mark() {
    let rulers = enumerate_golomb_rulers_pruned_with_length(4, 15);
    for r in rulers {
        println!("{}", r.to_string());
    }
}

#[test]
fn more_enums() {
    let order = 2;
    let length = 11;
    let depth = 1;

    let rulers = enumerate_rulers_with_length(length);
    println!("N rulers: {} length: {}", rulers.len(), length);

    let rulers_pruned = enumerate_golomb_rulers_pruned_with_length(order, length);
    println!("N pruned rulers: {} (order: {}, length: {})", rulers_pruned.len(), order, length);

    let ruler_pruned_g: Vec<&GolombRuler> =
        rulers_pruned.iter().filter(|r| r.is_golomb_ruler()).collect();

    let rulers_depth = enumerate_golomb_rulers_depth_with_length(order, length, depth);
    println!("N depth rulers: {} (order: {}, length: {})", rulers_depth.len(), order, length);

    let golomb_rulers = enumerate_golomb_rulers_with_length(order, length);
    println!("N golomb rulers: {} (order: {}, length: {})", golomb_rulers.len(), order, length);

    for r in &rulers_pruned {
        println!("{}", r.to_string());
    }

    println!("========");

    for r in rulers_depth {
        println!("{}", r.to_string());
    }

    println!("=======");

    for r in golomb_rulers {
        println!("{}", r.to_string());
    }

    println!("=======");

    for r in ruler_pruned_g {
        println!("{}", r.to_string());
    }
}

// Generate all rulers, then filter, and compare with the pruned enumeration
fn test_pruned(length: usize) {
    let all_rulers = enumerate_rulers_with_length(length);

    for order in 1..length {
        let filtered: Vec<&GolombRuler> =
            all_rulers.iter().filter(|r| r.order() == order).collect();
        let pruned = enumerate_pruned_rulers(order, length);

        assert_eq!(filtered.len(), pruned.len())
    }
}

#[test]
fn tnp() {
    test_pruned(10);
    test_pruned(12);
    test_pruned(20);
}

#[test]
fn timing_tnp() {
    enumerate_pruned_rulers(10, 20);
}

#[test]
fn timing_all() {
    enumerate_rulers_with_order(10, 20);
}
