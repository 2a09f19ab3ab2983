use cart_cache::CartCache;

/// One step of a recorded run: the operation (0 for insert, 1 for get), the
/// key, the value to insert, the result (for an insert 1 where the key was
/// resident, for a get the value found or 0), and after the step the
/// length, the recent and frequent lengths, and the two counters.
type Step = (u8, u8, u32, u32, usize, usize, usize, u64, u64);

fn replay(capacity: usize, steps: &[Step]) {
    let mut cache: CartCache<u8, u32> = CartCache::new(capacity).unwrap();
    for (i, step) in steps.iter().enumerate() {
        let (op, key, value, result, len, recent, frequent, inserted, evicted) = *step;
        if op == 0 {
            let hit = cache.insert(key, value);
            assert_eq!(hit, result == 1, "step {}", i);
        } else {
            let found = cache.get(&key).copied().unwrap_or(0);
            assert_eq!(found, result, "step {}", i);
        }
        assert_eq!(cache.len(), len, "step {}", i);
        assert_eq!(cache.recent_len(), recent, "step {}", i);
        assert_eq!(cache.frequent_len(), frequent, "step {}", i);
        assert_eq!(cache.inserted(), inserted, "step {}", i);
        assert_eq!(cache.evicted(), evicted, "step {}", i);
    }
}

#[test]
fn replay_capacity_six() {
    let steps: Vec<Step> = vec![
        (0, 5, 100, 0, 1, 1, 0, 1, 0),
        (0, 6, 101, 0, 2, 2, 0, 2, 0),
        (0, 1, 102, 0, 3, 3, 0, 3, 0),
        (0, 1, 103, 1, 3, 3, 0, 3, 0),
        (0, 0, 104, 0, 4, 4, 0, 4, 1),
        (1, 3, 0, 0, 4, 4, 0, 4, 1),
        (0, 6, 106, 1, 4, 4, 0, 4, 1),
        (1, 3, 0, 0, 4, 4, 0, 4, 1),
        (1, 6, 0, 106, 4, 4, 0, 4, 1),
        (0, 1, 109, 1, 4, 4, 0, 4, 1),
        (0, 0, 110, 1, 4, 4, 0, 4, 1),
        (1, 6, 0, 106, 4, 4, 0, 4, 1),
        (1, 3, 0, 0, 4, 4, 0, 4, 1),
        (1, 2, 0, 0, 4, 4, 0, 4, 1),
        (0, 2, 114, 0, 5, 2, 3, 5, 2),
        (0, 4, 115, 0, 6, 3, 3, 6, 3),
        (1, 2, 0, 0, 6, 3, 3, 6, 3),
        (0, 3, 117, 0, 6, 4, 2, 7, 4),
        (0, 8, 118, 0, 6, 4, 2, 8, 5),
        (0, 0, 119, 1, 6, 4, 2, 8, 5),
        (0, 7, 120, 0, 6, 4, 2, 9, 6),
        (0, 6, 121, 0, 6, 4, 2, 10, 7),
        (0, 7, 122, 0, 6, 3, 3, 10, 8),
        (0, 7, 123, 1, 6, 3, 3, 10, 8),
        (0, 3, 124, 0, 6, 2, 4, 10, 9),
        (1, 3, 0, 124, 6, 2, 4, 10, 9),
        (0, 4, 126, 0, 6, 3, 3, 11, 10),
        (0, 5, 127, 0, 6, 4, 2, 12, 11),
        (0, 4, 128, 1, 6, 4, 2, 12, 11),
        (1, 1, 0, 0, 6, 4, 2, 12, 11),
        (1, 6, 0, 0, 6, 4, 2, 12, 11),
        (1, 5, 0, 127, 6, 4, 2, 12, 11),
        (0, 7, 132, 0, 6, 3, 3, 13, 12),
        (0, 1, 133, 0, 6, 4, 2, 14, 13),
        (1, 5, 0, 127, 6, 4, 2, 14, 13),
        (0, 5, 135, 1, 6, 4, 2, 14, 13),
        (1, 7, 0, 132, 6, 4, 2, 14, 13),
        (0, 1, 137, 1, 6, 4, 2, 14, 13),
        (0, 7, 138, 1, 6, 4, 2, 14, 13),
        (1, 1, 0, 137, 6, 4, 2, 14, 13),
        (0, 4, 140, 0, 6, 2, 4, 14, 14),
        (1, 7, 0, 138, 6, 2, 4, 14, 14),
        (0, 6, 142, 0, 6, 1, 5, 14, 15),
        (1, 5, 0, 0, 6, 1, 5, 14, 15),
        (0, 7, 144, 1, 6, 1, 5, 14, 15),
        (0, 1, 145, 0, 6, 1, 5, 14, 16),
        (0, 3, 146, 0, 6, 2, 4, 15, 17),
        (0, 2, 147, 0, 6, 3, 3, 16, 18),
        (0, 6, 148, 0, 6, 3, 3, 16, 19),
        (1, 7, 0, 144, 6, 3, 3, 16, 19),
        (0, 7, 150, 1, 6, 3, 3, 16, 19),
        (0, 4, 151, 0, 6, 4, 2, 17, 20),
        (0, 6, 152, 1, 6, 4, 2, 17, 20),
        (0, 4, 153, 1, 6, 4, 2, 17, 20),
        (0, 5, 154, 0, 6, 4, 2, 18, 21),
        (0, 6, 155, 1, 6, 4, 2, 18, 21),
        (1, 2, 0, 0, 6, 4, 2, 18, 21),
        (1, 2, 0, 0, 6, 4, 2, 18, 21),
        (1, 3, 0, 0, 6, 4, 2, 18, 21),
        (1, 2, 0, 0, 6, 4, 2, 18, 21),
    ];
    replay(6, &steps);
}

#[test]
fn replay_capacity_three() {
    let steps: Vec<Step> = vec![
        (1, 4, 0, 0, 0, 0, 0, 0, 0),
        (0, 2, 101, 0, 1, 1, 0, 1, 0),
        (1, 4, 0, 0, 1, 1, 0, 1, 0),
        (0, 3, 103, 0, 2, 2, 0, 2, 1),
        (0, 1, 104, 0, 2, 2, 0, 3, 2),
        (1, 1, 0, 104, 2, 2, 0, 3, 2),
        (0, 3, 106, 0, 2, 0, 2, 3, 3),
        (0, 3, 107, 1, 2, 0, 2, 3, 3),
        (1, 4, 0, 0, 2, 0, 2, 3, 3),
        (0, 1, 109, 0, 2, 0, 2, 3, 4),
        (0, 1, 110, 1, 2, 0, 2, 3, 4),
        (1, 3, 0, 0, 2, 0, 2, 3, 4),
        (1, 0, 0, 0, 2, 0, 2, 3, 4),
        (0, 4, 113, 0, 2, 1, 1, 4, 5),
        (1, 1, 0, 0, 2, 1, 1, 4, 5),
        (1, 0, 0, 0, 2, 1, 1, 4, 5),
        (0, 1, 116, 0, 2, 1, 1, 4, 6),
        (0, 1, 117, 1, 2, 1, 1, 4, 6),
        (0, 2, 118, 0, 2, 2, 0, 5, 7),
        (0, 1, 119, 0, 2, 2, 0, 6, 8),
        (1, 1, 0, 119, 2, 2, 0, 6, 8),
        (0, 1, 121, 1, 2, 2, 0, 6, 8),
        (1, 3, 0, 0, 2, 2, 0, 6, 8),
        (0, 2, 123, 0, 2, 0, 2, 6, 9),
        (1, 1, 0, 0, 2, 0, 2, 6, 9),
        (0, 2, 125, 1, 2, 0, 2, 6, 9),
        (0, 4, 126, 0, 2, 1, 1, 7, 10),
        (0, 4, 127, 1, 2, 1, 1, 7, 10),
        (1, 2, 0, 0, 2, 1, 1, 7, 10),
        (0, 2, 129, 0, 2, 0, 2, 7, 11),
        (0, 3, 130, 0, 2, 1, 1, 8, 12),
        (0, 1, 131, 0, 2, 2, 0, 9, 13),
        (1, 1, 0, 131, 2, 2, 0, 9, 13),
        (0, 0, 133, 0, 2, 2, 0, 10, 14),
        (0, 2, 134, 0, 2, 2, 0, 11, 15),
        (0, 0, 135, 0, 2, 1, 1, 11, 16),
        (0, 3, 136, 0, 2, 2, 0, 12, 17),
        (0, 4, 137, 0, 2, 2, 0, 13, 18),
        (1, 3, 0, 0, 2, 2, 0, 13, 18),
        (0, 1, 139, 0, 2, 2, 0, 14, 19),
    ];
    replay(3, &steps);
}

#[test]
fn replay_capacity_one() {
    let steps: Vec<Step> = vec![
        (0, 1, 100, 0, 1, 1, 0, 1, 1),
        (0, 1, 101, 1, 1, 1, 0, 1, 1),
        (1, 2, 0, 0, 1, 1, 0, 1, 1),
        (0, 2, 103, 0, 1, 1, 0, 2, 2),
        (0, 2, 104, 1, 1, 1, 0, 2, 2),
        (0, 0, 105, 0, 1, 1, 0, 3, 3),
        (1, 0, 0, 105, 1, 1, 0, 3, 3),
        (0, 2, 107, 0, 1, 1, 0, 4, 4),
        (0, 2, 108, 1, 1, 1, 0, 4, 4),
        (0, 1, 109, 0, 1, 1, 0, 5, 5),
        (0, 2, 110, 0, 1, 1, 0, 6, 6),
        (1, 2, 0, 110, 1, 1, 0, 6, 6),
        (1, 2, 0, 110, 1, 1, 0, 6, 6),
        (1, 0, 0, 0, 1, 1, 0, 6, 6),
        (0, 0, 114, 0, 1, 1, 0, 7, 7),
        (0, 1, 115, 0, 1, 1, 0, 8, 8),
        (0, 2, 116, 0, 1, 1, 0, 9, 9),
        (1, 2, 0, 116, 1, 1, 0, 9, 9),
        (0, 1, 118, 0, 1, 1, 0, 10, 10),
        (1, 2, 0, 0, 1, 1, 0, 10, 10),
        (1, 2, 0, 0, 1, 1, 0, 10, 10),
        (0, 2, 121, 0, 1, 1, 0, 11, 11),
        (0, 0, 122, 0, 1, 1, 0, 12, 12),
        (0, 1, 123, 0, 1, 1, 0, 13, 13),
    ];
    replay(1, &steps);
}

#[test]
fn replay_capacity_eight() {
    let steps: Vec<Step> = vec![
        (0, 3, 100, 0, 1, 1, 0, 1, 0),
        (1, 2, 0, 0, 1, 1, 0, 1, 0),
        (0, 9, 102, 0, 2, 2, 0, 2, 0),
        (1, 9, 0, 102, 2, 2, 0, 2, 0),
        (0, 0, 104, 0, 3, 3, 0, 3, 0),
        (1, 7, 0, 0, 3, 3, 0, 3, 0),
        (1, 3, 0, 100, 3, 3, 0, 3, 0),
        (0, 7, 107, 0, 4, 4, 0, 4, 0),
        (0, 8, 108, 0, 5, 3, 2, 5, 1),
        (0, 10, 109, 0, 6, 4, 2, 6, 2),
        (0, 3, 110, 1, 6, 4, 2, 6, 2),
        (1, 8, 0, 108, 6, 4, 2, 6, 2),
        (0, 0, 112, 0, 6, 2, 4, 6, 3),
        (1, 1, 0, 0, 6, 2, 4, 6, 3),
        (1, 9, 0, 102, 6, 2, 4, 6, 3),
        (0, 0, 115, 1, 6, 2, 4, 6, 3),
        (0, 4, 116, 0, 7, 3, 4, 7, 4),
        (0, 6, 117, 0, 8, 4, 4, 8, 5),
        (1, 6, 0, 117, 8, 4, 4, 8, 5),
        (1, 9, 0, 102, 8, 4, 4, 8, 5),
        (0, 2, 120, 0, 8, 5, 3, 9, 6),
        (1, 1, 0, 0, 8, 5, 3, 9, 6),
        (1, 7, 0, 0, 8, 5, 3, 9, 6),
        (1, 10, 0, 0, 8, 5, 3, 9, 6),
        (0, 10, 124, 0, 8, 4, 4, 9, 7),
        (0, 6, 125, 0, 8, 3, 5, 9, 8),
        (0, 6, 126, 1, 8, 3, 5, 9, 8),
        (0, 8, 127, 0, 8, 3, 5, 9, 9),
        (1, 9, 0, 102, 8, 3, 5, 9, 9),
        (0, 5, 129, 0, 8, 4, 4, 10, 10),
        (0, 0, 130, 0, 8, 5, 3, 11, 11),
        (0, 9, 131, 1, 8, 5, 3, 11, 11),
        (0, 2, 132, 0, 8, 4, 4, 11, 12),
        (0, 5, 133, 0, 8, 3, 5, 11, 13),
        (0, 9, 134, 1, 8, 3, 5, 11, 13),
        (1, 10, 0, 0, 8, 3, 5, 11, 13),
        (1, 9, 0, 134, 8, 3, 5, 11, 13),
        (1, 1, 0, 0, 8, 3, 5, 11, 13),
        (0, 10, 138, 0, 8, 4, 4, 12, 14),
        (1, 1, 0, 0, 8, 4, 4, 12, 14),
        (1, 1, 0, 0, 8, 4, 4, 12, 14),
        (1, 2, 0, 132, 8, 4, 4, 12, 14),
        (0, 6, 142, 0, 8, 5, 3, 13, 15),
        (1, 1, 0, 0, 8, 5, 3, 13, 15),
        (0, 9, 144, 1, 8, 5, 3, 13, 15),
        (0, 6, 145, 1, 8, 5, 3, 13, 15),
        (0, 5, 146, 0, 8, 5, 3, 13, 16),
        (0, 4, 147, 0, 8, 3, 5, 13, 17),
        (1, 0, 0, 0, 8, 3, 5, 13, 17),
        (1, 1, 0, 0, 8, 3, 5, 13, 17),
        (1, 8, 0, 0, 8, 3, 5, 13, 17),
        (0, 3, 151, 0, 8, 4, 4, 14, 18),
        (0, 4, 152, 1, 8, 4, 4, 14, 18),
        (0, 2, 153, 0, 8, 5, 3, 15, 19),
        (1, 5, 0, 0, 8, 5, 3, 15, 19),
        (0, 2, 155, 1, 8, 5, 3, 15, 19),
        (1, 6, 0, 145, 8, 5, 3, 15, 19),
        (1, 8, 0, 0, 8, 5, 3, 15, 19),
        (0, 9, 158, 0, 8, 5, 3, 15, 20),
        (0, 1, 159, 0, 8, 5, 3, 16, 21),
        (1, 8, 0, 0, 8, 5, 3, 16, 21),
        (0, 10, 161, 0, 8, 4, 4, 16, 22),
        (0, 3, 162, 0, 8, 3, 5, 16, 23),
        (0, 6, 163, 0, 8, 4, 4, 17, 24),
        (1, 8, 0, 0, 8, 4, 4, 17, 24),
        (1, 5, 0, 0, 8, 4, 4, 17, 24),
        (0, 6, 166, 1, 8, 4, 4, 17, 24),
        (1, 5, 0, 0, 8, 4, 4, 17, 24),
        (0, 9, 168, 0, 8, 4, 4, 17, 25),
        (1, 2, 0, 0, 8, 4, 4, 17, 25),
        (1, 10, 0, 161, 8, 4, 4, 17, 25),
        (0, 5, 171, 0, 8, 5, 3, 18, 26),
        (0, 5, 172, 1, 8, 5, 3, 18, 26),
        (0, 4, 173, 0, 8, 5, 3, 19, 27),
        (0, 0, 174, 0, 8, 4, 4, 19, 28),
        (1, 10, 0, 161, 8, 4, 4, 19, 28),
        (1, 5, 0, 0, 8, 4, 4, 19, 28),
        (1, 7, 0, 0, 8, 4, 4, 19, 28),
        (1, 9, 0, 168, 8, 4, 4, 19, 28),
        (1, 5, 0, 0, 8, 4, 4, 19, 28),
        (0, 5, 180, 0, 8, 3, 5, 19, 29),
        (1, 4, 0, 0, 8, 3, 5, 19, 29),
        (1, 6, 0, 0, 8, 3, 5, 19, 29),
        (0, 0, 183, 1, 8, 3, 5, 19, 29),
        (0, 10, 184, 1, 8, 3, 5, 19, 29),
        (0, 4, 185, 0, 8, 2, 6, 19, 30),
        (0, 10, 186, 1, 8, 2, 6, 19, 30),
        (1, 3, 0, 0, 8, 2, 6, 19, 30),
        (1, 10, 0, 186, 8, 2, 6, 19, 30),
        (1, 1, 0, 0, 8, 2, 6, 19, 30),
        (0, 5, 190, 1, 8, 2, 6, 19, 30),
        (0, 10, 191, 1, 8, 2, 6, 19, 30),
        (0, 7, 192, 0, 8, 3, 5, 20, 31),
        (1, 2, 0, 0, 8, 3, 5, 20, 31),
        (1, 10, 0, 191, 8, 3, 5, 20, 31),
        (0, 9, 195, 0, 8, 3, 5, 20, 32),
        (0, 3, 196, 0, 8, 4, 4, 21, 33),
        (0, 0, 197, 0, 8, 5, 3, 22, 34),
        (1, 3, 0, 196, 8, 5, 3, 22, 34),
        (1, 9, 0, 195, 8, 5, 3, 22, 34),
        (1, 4, 0, 0, 8, 5, 3, 22, 34),
        (1, 10, 0, 191, 8, 5, 3, 22, 34),
        (1, 9, 0, 195, 8, 5, 3, 22, 34),
        (1, 2, 0, 0, 8, 5, 3, 22, 34),
        (0, 8, 204, 0, 8, 4, 4, 23, 35),
        (0, 4, 205, 0, 8, 5, 3, 24, 36),
        (1, 10, 0, 0, 8, 5, 3, 24, 36),
        (0, 6, 207, 0, 8, 4, 4, 24, 37),
        (0, 0, 208, 0, 8, 3, 5, 24, 38),
        (1, 2, 0, 0, 8, 3, 5, 24, 38),
        (0, 7, 210, 0, 8, 2, 6, 24, 39),
        (0, 9, 211, 0, 8, 2, 6, 24, 40),
        (0, 6, 212, 1, 8, 2, 6, 24, 40),
        (1, 3, 0, 0, 8, 2, 6, 24, 40),
        (0, 7, 214, 1, 8, 2, 6, 24, 40),
        (0, 10, 215, 0, 8, 2, 6, 24, 41),
        (0, 4, 216, 0, 8, 1, 7, 24, 42),
        (0, 3, 217, 0, 8, 1, 7, 24, 43),
        (0, 9, 218, 0, 8, 1, 7, 24, 44),
        (0, 1, 219, 0, 8, 2, 6, 25, 45),
        (1, 0, 0, 0, 8, 2, 6, 25, 45),
        (0, 8, 221, 0, 8, 1, 7, 25, 46),
        (0, 6, 222, 0, 8, 1, 7, 25, 47),
        (0, 0, 223, 0, 8, 2, 6, 26, 48),
        (1, 1, 0, 0, 8, 2, 6, 26, 48),
        (1, 4, 0, 0, 8, 2, 6, 26, 48),
        (0, 0, 226, 1, 8, 2, 6, 26, 48),
        (1, 6, 0, 222, 8, 2, 6, 26, 48),
        (1, 9, 0, 218, 8, 2, 6, 26, 48),
        (1, 2, 0, 0, 8, 2, 6, 26, 48),
        (0, 8, 230, 1, 8, 2, 6, 26, 48),
        (1, 0, 0, 226, 8, 2, 6, 26, 48),
        (1, 3, 0, 0, 8, 2, 6, 26, 48),
        (1, 1, 0, 0, 8, 2, 6, 26, 48),
        (0, 4, 234, 0, 8, 1, 7, 26, 49),
        (0, 2, 235, 0, 8, 2, 6, 27, 50),
        (0, 0, 236, 1, 8, 2, 6, 27, 50),
        (0, 9, 237, 0, 8, 2, 6, 27, 51),
        (0, 0, 238, 1, 8, 2, 6, 27, 51),
        (1, 3, 0, 0, 8, 2, 6, 27, 51),
        (0, 8, 240, 0, 8, 2, 6, 27, 52),
        (0, 0, 241, 1, 8, 2, 6, 27, 52),
        (0, 0, 242, 1, 8, 2, 6, 27, 52),
        (1, 2, 0, 0, 8, 2, 6, 27, 52),
        (1, 0, 0, 242, 8, 2, 6, 27, 52),
        (0, 0, 245, 1, 8, 2, 6, 27, 52),
        (0, 1, 246, 0, 8, 1, 7, 27, 53),
        (1, 7, 0, 0, 8, 1, 7, 27, 53),
        (1, 5, 0, 0, 8, 1, 7, 27, 53),
        (0, 6, 249, 0, 8, 1, 7, 27, 54),
    ];
    replay(8, &steps);
}

#[test]
fn replay_capacity_sixteen() {
    let steps: Vec<Step> = vec![
        (1, 7, 0, 0, 0, 0, 0, 0, 0),
        (1, 12, 0, 0, 0, 0, 0, 0, 0),
        (1, 2, 0, 0, 0, 0, 0, 0, 0),
        (0, 12, 103, 0, 1, 1, 0, 1, 0),
        (0, 9, 104, 0, 2, 2, 0, 2, 0),
        (1, 1, 0, 0, 2, 2, 0, 2, 0),
        (1, 17, 0, 0, 2, 2, 0, 2, 0),
        (0, 5, 107, 0, 3, 3, 0, 3, 0),
        (1, 8, 0, 0, 3, 3, 0, 3, 0),
        (0, 0, 109, 0, 4, 4, 0, 4, 0),
        (0, 8, 110, 0, 5, 5, 0, 5, 0),
        (1, 6, 0, 0, 5, 5, 0, 5, 0),
        (0, 9, 112, 1, 5, 5, 0, 5, 0),
        (1, 11, 0, 0, 5, 5, 0, 5, 0),
        (1, 19, 0, 0, 5, 5, 0, 5, 0),
        (0, 12, 115, 1, 5, 5, 0, 5, 0),
        (1, 5, 0, 107, 5, 5, 0, 5, 0),
        (1, 8, 0, 110, 5, 5, 0, 5, 0),
        (0, 17, 118, 0, 6, 6, 0, 6, 0),
        (0, 0, 119, 1, 6, 6, 0, 6, 0),
        (0, 18, 120, 0, 7, 7, 0, 7, 0),
        (0, 9, 121, 1, 7, 7, 0, 7, 0),
        (1, 16, 0, 0, 7, 7, 0, 7, 0),
        (0, 13, 123, 0, 8, 8, 0, 8, 0),
        (1, 13, 0, 123, 8, 8, 0, 8, 0),
        (1, 7, 0, 0, 8, 8, 0, 8, 0),
        (1, 1, 0, 0, 8, 8, 0, 8, 0),
        (0, 14, 127, 0, 9, 4, 5, 9, 1),
        (0, 8, 128, 1, 9, 4, 5, 9, 1),
        (0, 15, 129, 0, 10, 5, 5, 10, 2),
        (0, 4, 130, 0, 11, 5, 6, 11, 3),
        (1, 6, 0, 0, 11, 5, 6, 11, 3),
        (0, 6, 132, 0, 12, 6, 6, 12, 4),
        (1, 14, 0, 0, 12, 6, 6, 12, 4),
        (1, 11, 0, 0, 12, 6, 6, 12, 4),
        (1, 18, 0, 0, 12, 6, 6, 12, 4),
        (1, 17, 0, 0, 12, 6, 6, 12, 4),
        (1, 10, 0, 0, 12, 6, 6, 12, 4),
        (0, 1, 138, 0, 13, 7, 6, 13, 5),
        (0, 8, 139, 1, 13, 7, 6, 13, 5),
        (0, 19, 140, 0, 14, 8, 6, 14, 6),
        (1, 3, 0, 0, 14, 8, 6, 14, 6),
        (1, 5, 0, 107, 14, 8, 6, 14, 6),
        (1, 0, 0, 119, 14, 8, 6, 14, 6),
        (0, 2, 144, 0, 15, 9, 6, 15, 7),
        (0, 9, 145, 1, 15, 9, 6, 15, 7),
        (1, 10, 0, 0, 15, 9, 6, 15, 7),
        (1, 9, 0, 145, 15, 9, 6, 15, 7),
        (0, 4, 148, 0, 15, 8, 7, 15, 8),
        (0, 13, 149, 1, 15, 8, 7, 15, 8),
        (0, 19, 150, 0, 15, 7, 8, 15, 9),
        (1, 2, 0, 0, 15, 7, 8, 15, 9),
        (0, 6, 152, 0, 15, 6, 9, 15, 10),
        (1, 9, 0, 145, 15, 6, 9, 15, 10),
        (0, 12, 154, 0, 15, 6, 9, 15, 11),
        (1, 5, 0, 107, 15, 6, 9, 15, 11),
        (1, 0, 0, 119, 15, 6, 9, 15, 11),
        (1, 14, 0, 0, 15, 6, 9, 15, 11),
        (0, 11, 158, 0, 16, 7, 9, 16, 12),
        (1, 18, 0, 0, 16, 7, 9, 16, 12),
        (1, 6, 0, 152, 16, 7, 9, 16, 12),
        (1, 6, 0, 152, 16, 7, 9, 16, 12),
        (1, 1, 0, 0, 16, 7, 9, 16, 12),
        (0, 5, 163, 1, 16, 7, 9, 16, 12),
        (0, 4, 164, 0, 16, 7, 9, 16, 13),
        (1, 17, 0, 0, 16, 7, 9, 16, 13),
        (1, 7, 0, 0, 16, 7, 9, 16, 13),
        (1, 1, 0, 0, 16, 7, 9, 16, 13),
        (1, 16, 0, 0, 16, 7, 9, 16, 13),
        (0, 13, 169, 1, 16, 7, 9, 16, 13),
        (1, 6, 0, 152, 16, 7, 9, 16, 13),
        (1, 7, 0, 0, 16, 7, 9, 16, 13),
        (1, 15, 0, 0, 16, 7, 9, 16, 13),
        (1, 13, 0, 169, 16, 7, 9, 16, 13),
        (0, 13, 174, 1, 16, 7, 9, 16, 13),
        (1, 15, 0, 0, 16, 7, 9, 16, 13),
        (1, 1, 0, 0, 16, 7, 9, 16, 13),
        (0, 7, 177, 0, 16, 8, 8, 17, 14),
        (1, 7, 0, 177, 16, 8, 8, 17, 14),
        (1, 8, 0, 139, 16, 8, 8, 17, 14),
        (0, 1, 180, 0, 16, 6, 10, 17, 15),
        (0, 10, 181, 0, 16, 7, 9, 18, 16),
        (1, 18, 0, 0, 16, 7, 9, 18, 16),
        (1, 1, 0, 180, 16, 7, 9, 18, 16),
        (1, 2, 0, 0, 16, 7, 9, 18, 16),
        (0, 18, 185, 0, 16, 6, 10, 18, 17),
        (1, 5, 0, 163, 16, 6, 10, 18, 17),
        (0, 15, 187, 0, 16, 5, 11, 18, 18),
        (0, 10, 188, 0, 16, 4, 12, 18, 19),
        (1, 16, 0, 0, 16, 4, 12, 18, 19),
        (1, 8, 0, 139, 16, 4, 12, 18, 19),
        (0, 12, 191, 0, 16, 4, 12, 18, 20),
        (0, 2, 192, 0, 16, 3, 13, 18, 21),
        (0, 8, 193, 1, 16, 3, 13, 18, 21),
        (1, 6, 0, 0, 16, 3, 13, 18, 21),
        (1, 19, 0, 0, 16, 3, 13, 18, 21),
        (0, 8, 196, 1, 16, 3, 13, 18, 21),
        (0, 1, 197, 1, 16, 3, 13, 18, 21),
        (0, 14, 198, 0, 16, 2, 14, 18, 22),
        (0, 12, 199, 1, 16, 2, 14, 18, 22),
        (0, 6, 200, 0, 16, 2, 14, 18, 23),
        (0, 6, 201, 1, 16, 2, 14, 18, 23),
        (0, 0, 202, 0, 16, 2, 14, 18, 24),
        (1, 8, 0, 196, 16, 2, 14, 18, 24),
        (0, 12, 204, 1, 16, 2, 14, 18, 24),
        (1, 17, 0, 0, 16, 2, 14, 18, 24),
        (1, 6, 0, 201, 16, 2, 14, 18, 24),
        (1, 19, 0, 0, 16, 2, 14, 18, 24),
        (0, 17, 208, 0, 16, 1, 15, 18, 25),
        (0, 15, 209, 0, 16, 1, 15, 18, 26),
        (1, 14, 0, 198, 16, 1, 15, 18, 26),
        (0, 1, 211, 1, 16, 1, 15, 18, 26),
        (1, 3, 0, 0, 16, 1, 15, 18, 26),
        (0, 8, 213, 1, 16, 1, 15, 18, 26),
        (1, 4, 0, 0, 16, 1, 15, 18, 26),
        (0, 2, 215, 0, 16, 1, 15, 18, 27),
        (0, 16, 216, 0, 16, 2, 14, 19, 28),
        (0, 9, 217, 0, 16, 3, 13, 20, 29),
        (1, 2, 0, 215, 16, 3, 13, 20, 29),
        (1, 17, 0, 0, 16, 3, 13, 20, 29),
        (0, 6, 220, 1, 16, 3, 13, 20, 29),
        (1, 9, 0, 217, 16, 3, 13, 20, 29),
        (0, 15, 222, 1, 16, 3, 13, 20, 29),
        (1, 12, 0, 0, 16, 3, 13, 20, 29),
        (0, 3, 224, 0, 16, 4, 12, 21, 30),
        (0, 11, 225, 0, 16, 2, 14, 21, 31),
        (1, 13, 0, 0, 16, 2, 14, 21, 31),
        (1, 14, 0, 198, 16, 2, 14, 21, 31),
        (0, 6, 228, 1, 16, 2, 14, 21, 31),
        (1, 15, 0, 222, 16, 2, 14, 21, 31),
        (1, 17, 0, 0, 16, 2, 14, 21, 31),
        (1, 5, 0, 0, 16, 2, 14, 21, 31),
        (1, 4, 0, 0, 16, 2, 14, 21, 31),
        (1, 10, 0, 0, 16, 2, 14, 21, 31),
        (0, 0, 234, 0, 16, 2, 14, 21, 32),
        (0, 0, 235, 1, 16, 2, 14, 21, 32),
        (0, 3, 236, 0, 16, 1, 15, 21, 33),
        (0, 15, 237, 1, 16, 1, 15, 21, 33),
        (1, 19, 0, 0, 16, 1, 15, 21, 33),
        (0, 2, 239, 1, 16, 1, 15, 21, 33),
        (0, 13, 240, 0, 16, 2, 14, 22, 34),
        (1, 11, 0, 225, 16, 2, 14, 22, 34),
        (0, 5, 242, 0, 16, 2, 14, 22, 35),
        (0, 0, 243, 1, 16, 2, 14, 22, 35),
        (0, 19, 244, 0, 16, 3, 13, 23, 36),
        (0, 17, 245, 0, 16, 3, 13, 23, 37),
        (0, 14, 246, 0, 16, 3, 13, 23, 38),
        (1, 18, 0, 0, 16, 3, 13, 23, 38),
        (0, 16, 248, 0, 16, 2, 14, 23, 39),
        (0, 19, 249, 0, 16, 1, 15, 23, 40),
        (1, 12, 0, 0, 16, 1, 15, 23, 40),
        (1, 19, 0, 249, 16, 1, 15, 23, 40),
        (1, 10, 0, 0, 16, 1, 15, 23, 40),
        (0, 2, 253, 1, 16, 1, 15, 23, 40),
        (1, 19, 0, 249, 16, 1, 15, 23, 40),
        (1, 11, 0, 225, 16, 1, 15, 23, 40),
        (0, 11, 256, 1, 16, 1, 15, 23, 40),
        (1, 2, 0, 253, 16, 1, 15, 23, 40),
        (1, 5, 0, 242, 16, 1, 15, 23, 40),
        (1, 11, 0, 256, 16, 1, 15, 23, 40),
        (0, 9, 260, 0, 16, 1, 15, 23, 41),
        (1, 19, 0, 249, 16, 1, 15, 23, 41),
        (0, 2, 262, 1, 16, 1, 15, 23, 41),
        (1, 3, 0, 0, 16, 1, 15, 23, 41),
        (0, 18, 264, 0, 16, 2, 14, 24, 42),
        (0, 18, 265, 1, 16, 2, 14, 24, 42),
        (0, 2, 266, 1, 16, 2, 14, 24, 42),
        (1, 3, 0, 0, 16, 2, 14, 24, 42),
        (0, 15, 268, 0, 16, 1, 15, 24, 43),
        (0, 7, 269, 0, 16, 2, 14, 25, 44),
        (0, 9, 270, 1, 16, 2, 14, 25, 44),
        (0, 12, 271, 0, 16, 3, 13, 26, 45),
        (0, 7, 272, 0, 16, 2, 14, 26, 46),
        (1, 7, 0, 272, 16, 2, 14, 26, 46),
        (0, 7, 274, 1, 16, 2, 14, 26, 46),
        (0, 17, 275, 0, 16, 2, 14, 26, 47),
        (0, 14, 276, 0, 16, 2, 14, 26, 48),
        (0, 12, 277, 0, 16, 1, 15, 26, 49),
        (1, 10, 0, 0, 16, 1, 15, 26, 49),
        (0, 13, 279, 0, 16, 0, 16, 26, 50),
        (1, 8, 0, 0, 16, 0, 16, 26, 50),
        (1, 17, 0, 275, 16, 0, 16, 26, 50),
        (0, 17, 282, 1, 16, 0, 16, 26, 50),
        (1, 11, 0, 0, 16, 0, 16, 26, 50),
        (0, 12, 284, 1, 16, 0, 16, 26, 50),
        (0, 4, 285, 0, 16, 1, 15, 27, 51),
        (0, 14, 286, 1, 16, 1, 15, 27, 51),
        (0, 11, 287, 0, 16, 1, 15, 27, 52),
        (0, 9, 288, 1, 16, 1, 15, 27, 52),
        (1, 8, 0, 0, 16, 1, 15, 27, 52),
        (0, 15, 290, 0, 16, 1, 15, 27, 53),
        (1, 2, 0, 266, 16, 1, 15, 27, 53),
        (1, 7, 0, 0, 16, 1, 15, 27, 53),
        (0, 4, 293, 0, 16, 0, 16, 27, 54),
        (1, 5, 0, 0, 16, 0, 16, 27, 54),
        (0, 18, 295, 0, 16, 0, 16, 27, 55),
        (0, 17, 296, 0, 16, 0, 16, 27, 56),
        (1, 17, 0, 296, 16, 0, 16, 27, 56),
        (1, 16, 0, 0, 16, 0, 16, 27, 56),
        (1, 3, 0, 0, 16, 0, 16, 27, 56),
    ];
    replay(16, &steps);
}

#[test]
fn replay_capacity_two() {
    let steps: Vec<Step> = vec![
        (0, 3, 100, 0, 1, 1, 0, 1, 0),
        (1, 2, 0, 0, 1, 1, 0, 1, 0),
        (1, 0, 0, 0, 1, 1, 0, 1, 0),
        (0, 3, 103, 1, 1, 1, 0, 1, 0),
        (1, 0, 0, 0, 1, 1, 0, 1, 0),
        (0, 0, 105, 0, 2, 1, 1, 2, 1),
        (0, 1, 106, 0, 2, 2, 0, 3, 2),
        (0, 3, 107, 0, 2, 2, 0, 4, 3),
        (1, 3, 0, 107, 2, 2, 0, 4, 3),
        (1, 1, 0, 0, 2, 2, 0, 4, 3),
        (0, 1, 110, 0, 2, 0, 2, 4, 4),
        (0, 0, 111, 0, 2, 1, 1, 5, 5),
        (0, 3, 112, 0, 2, 2, 0, 6, 6),
        (0, 0, 113, 0, 2, 1, 1, 6, 7),
        (0, 1, 114, 0, 2, 2, 0, 7, 8),
        (0, 3, 115, 0, 2, 1, 1, 7, 9),
        (0, 2, 116, 0, 2, 2, 0, 8, 10),
        (1, 3, 0, 0, 2, 2, 0, 8, 10),
        (1, 0, 0, 0, 2, 2, 0, 8, 10),
        (0, 0, 119, 0, 2, 2, 0, 9, 11),
        (0, 0, 120, 1, 2, 2, 0, 9, 11),
        (1, 3, 0, 0, 2, 2, 0, 9, 11),
        (0, 1, 122, 0, 2, 2, 0, 10, 12),
        (0, 0, 123, 0, 2, 2, 0, 11, 13),
        (1, 0, 0, 123, 2, 2, 0, 11, 13),
        (0, 1, 125, 0, 2, 0, 2, 11, 14),
        (1, 1, 0, 125, 2, 0, 2, 11, 14),
        (1, 0, 0, 0, 2, 0, 2, 11, 14),
        (0, 0, 128, 0, 2, 0, 2, 11, 15),
        (0, 3, 129, 0, 2, 1, 1, 12, 16),
        (0, 1, 130, 0, 2, 2, 0, 13, 17),
        (1, 3, 0, 0, 2, 2, 0, 13, 17),
        (0, 0, 132, 0, 2, 2, 0, 14, 18),
        (1, 1, 0, 0, 2, 2, 0, 14, 18),
        (1, 0, 0, 132, 2, 2, 0, 14, 18),
        (0, 1, 135, 0, 2, 0, 2, 14, 19),
        (1, 0, 0, 0, 2, 0, 2, 14, 19),
        (0, 3, 137, 0, 2, 1, 1, 15, 20),
        (1, 1, 0, 0, 2, 1, 1, 15, 20),
        (0, 0, 139, 0, 2, 2, 0, 16, 21),
    ];
    replay(2, &steps);
}
