use sgl_kv_indexer::block::{Block, BlockError, ClearReply, Entry, HitClaim, Hits};
use sgl_kv_indexer::field::{format_field, parse_field, Generation, Mask, PlacementField};
use sgl_kv_indexer::numeral::{read_number, write_number, Number, Reading};
use sgl_kv_indexer::tier::{clear_tier, set_tier, tier_is_set};

fn raw(block: &Block, worker: &str) -> Option<String> {
    block
        .match_hash()
        .iter()
        .find(|e| e.worker_id == worker)
        .map(|e| e.raw.clone())
}

fn claim(worker: &str, generation: u64) -> HitClaim {
    HitClaim { worker_id: worker.to_string(), generation }
}

fn entry(worker: &str, raw: &str) -> Entry {
    Entry { worker_id: worker.to_string(), raw: raw.to_string() }
}

fn gone(worker_gone: i64, key_empty: bool) -> Result<ClearReply, BlockError> {
    Ok(ClearReply { worker_gone, key_empty })
}

fn number(floor: i128, fraction: u128, places: u32) -> Number {
    Number { floor, fraction, places }
}

fn whole(floor: i128) -> Number {
    number(floor, 0, 0)
}

fn field(generation: u64, mask: Option<i128>) -> PlacementField {
    PlacementField {
        generation: Generation::At(generation),
        mask: match mask {
            Some(mask) => Mask::Held(whole(mask)),
            None => Mask::Absent,
        },
    }
}

fn read(text: &str) -> Reading {
    let chars: Vec<char> = text.chars().collect();
    read_number(&chars)
}

fn stored(raw: &str) -> Block {
    Block::load(&vec![entry("w", raw)], None)
}

#[test]
fn entry_text_reads_back() {
    assert_eq!(format_field(3, &whole(5)), "3:5");
    assert_eq!(parse_field("3:5"), field(3, Some(5)));
    let text = format_field(u64::MAX, &whole(i128::MAX));
    assert_eq!(text, "18446744073709551615:170141183460469231731687303715884105727");
    assert_eq!(parse_field(&text), field(u64::MAX, Some(i128::MAX)));
    let text = format_field(2, &number(-3, 5, 1));
    assert_eq!(text, "2:-2.5");
    assert_eq!(parse_field(&text).mask, Mask::Held(number(-3, 5, 1)));
}

#[test]
fn entry_without_a_generation_is_of_generation_zero() {
    assert_eq!(parse_field("6"), field(0, Some(6)));
}

#[test]
fn entry_parts_that_are_no_numbers() {
    assert_eq!(parse_field(""), field(0, None));
    assert_eq!(parse_field("x"), field(0, None));
    assert_eq!(parse_field("x:3"), field(0, Some(3)));
    assert_eq!(parse_field(":3"), field(0, Some(3)));
    assert_eq!(parse_field("4:"), field(4, None));
    assert_eq!(parse_field("4:1:2"), field(4, None));
}

#[test]
fn entry_parts_are_read_as_numbers_of_every_form() {
    assert_eq!(parse_field("1e1"), field(0, Some(10)));
    assert_eq!(parse_field(" 3:5"), field(3, Some(5)));
    assert_eq!(parse_field("0x10:\t0XfF\n"), field(16, Some(255)));
    assert_eq!(parse_field("+2.50e2:1.e0 "), field(250, Some(1)));
    assert_eq!(parse_field("-0:.5E1"), field(0, Some(5)));
    assert_eq!(parse_field("4:18446744073709551616"), field(4, Some(18446744073709551616)));
    assert_eq!(parse_field("4:-7"), field(4, Some(-7)));
}

#[test]
fn generation_of_every_form_has_its_place() {
    for (text, generation) in [
        ("-1", Generation::Before),
        ("-0.5", Generation::Before),
        ("-1e99", Generation::Before),
        ("0.5", Generation::After(0)),
        ("2.5", Generation::After(2)),
        ("2.0", Generation::At(2)),
        ("18446744073709551615", Generation::At(u64::MAX)),
        ("18446744073709551616", Generation::After(u64::MAX)),
        ("1e99", Generation::After(u64::MAX)),
        ("inf", Generation::Unknown),
    ] {
        assert_eq!(parse_field(&format!("{text}:1")).generation, generation, "{text}");
    }
    let fine = format!("3.{}1:1", "0".repeat(40));
    assert_eq!(parse_field(&fine).generation, Generation::After(3));
    assert!(Generation::After(2).is_newer(2) && !Generation::After(2).is_older(2));
    assert!(Generation::After(2).is_older(3) && !Generation::After(2).is_newer(3));
    assert!(Generation::Before.is_older(0) && !Generation::Before.is_newer(0));
    assert!(!Generation::Unknown.is_older(5) && !Generation::Unknown.is_newer(5));
}

#[test]
fn whole_numbers_in_every_form() {
    for text in ["8", "08", " 8", "8\r", "+8", "8.", "8.0", ".8e1", "80e-1", "800E-2", "0x8"] {
        assert_eq!(read(text), Reading::Number(whole(8)), "{text}");
    }
    for text in ["0", "-0", "0x0", "-0x00", "0.000", "0e999999999999999999999999999", "-0e-1"] {
        assert_eq!(read(text), Reading::Number(whole(0)), "{text}");
    }
    for text in ["-8", " -8.0", "-0x8", "-.8e+1"] {
        assert_eq!(read(text), Reading::Number(whole(-8)), "{text}");
    }
    assert_eq!(read("\u{b}\u{c}7\u{b}"), Reading::Number(whole(7)));
    assert_eq!(read("1e15"), Reading::Number(whole(1_000_000_000_000_000)));
    assert_eq!(read("1e16"), Reading::Number(whole(10_000_000_000_000_000)));
    assert_eq!(read("1.0E+2"), Reading::Number(whole(100)));
    let tail = format!("5{}e-40", "0".repeat(40));
    assert_eq!(read(&tail), Reading::Number(whole(5)));
    let head = format!("0.{}5e41", "0".repeat(40));
    assert_eq!(read(&head), Reading::Number(whole(5)));
}

#[test]
fn fractions_are_read_exactly() {
    assert_eq!(read("2.5"), Reading::Number(number(2, 5, 1)));
    assert_eq!(read("-2.25"), Reading::Number(number(-3, 75, 2)));
    assert_eq!(read("15e-1"), Reading::Number(number(1, 5, 1)));
    assert_eq!(read("0.0010"), Reading::Number(number(0, 1, 3)));
    assert_eq!(read("-1e-5"), Reading::Number(number(-1, 99999, 5)));
    let held = format!("1.{}7", "0".repeat(37));
    assert_eq!(read(&held), Reading::Number(number(1, 7, 38)));
}

#[test]
fn numbers_that_cannot_be_held() {
    assert_eq!(
        read("170141183460469231731687303715884105727"),
        Reading::Number(whole(i128::MAX))
    );
    assert_eq!(
        read("-170141183460469231731687303715884105728"),
        Reading::Number(whole(i128::MIN))
    );
    for text in [
        "170141183460469231731687303715884105728",
        "170141183460469231731687303715884105728.5",
        "1e39",
        "1e999999999999999999999999999",
    ] {
        assert_eq!(read(text), Reading::Beyond { negative: false }, "{text}");
    }
    for text in ["-170141183460469231731687303715884105729", "-2e38", "-1e99"] {
        assert_eq!(read(text), Reading::Beyond { negative: true }, "{text}");
    }
    assert_eq!(read("1e-999999999999999999999999999"), Reading::Fine(0));
    assert_eq!(read("-1e-39"), Reading::Fine(-1));
    let fine = format!("-4.{}7", "0".repeat(38));
    assert_eq!(read(&fine), Reading::Fine(-5));
}

#[test]
fn texts_on_which_engines_do_not_agree() {
    assert_eq!(read("0x7fffffffffffffff"), Reading::Number(whole(i64::MAX as i128)));
    for text in [
        "0x8000000000000000", "0x1.8", "0x1p4", "inf", "-Infinity", "NaN", "nan(1)", "5\u{0}",
    ] {
        assert_eq!(read(text), Reading::Unknown, "{text}");
    }
}

#[test]
fn texts_that_are_no_numbers() {
    for text in [
        "", " ", "+", "-", ".", "e1", "1e", "1e+", "1e1.5", "1..2", "1 2", "- 1", "+-1", "0x",
        "0xg", "1x1", "f", "info", "nano", "1_000", "\u{660}", "\u{a0}1",
    ] {
        assert_eq!(read(text), Reading::NoNumber, "{text}");
    }
}

#[test]
fn numbers_are_written_and_read_back() {
    for (n, text) in [
        (whole(0), "0"),
        (whole(-12), "-12"),
        (whole(i128::MIN), "-170141183460469231731687303715884105728"),
        (number(2, 5, 1), "2.5"),
        (number(-3, 5, 1), "-2.5"),
        (number(-1, 75, 2), "-0.25"),
        (number(10, 5, 3), "10.005"),
        (number(0, 1, 4), "0.0001"),
        (number(0, 1, 5), "1e-05"),
        (number(0, 125, 12), "1.25e-10"),
        (number(-1, 99999, 5), "-1e-05"),
        (number(1, 1, 5), "1.00001"),
    ] {
        assert_eq!(write_number(&n), text);
        assert_eq!(read(text), Reading::Number(n), "{text}");
    }
}

#[test]
fn tier_bits_are_set_and_cleared_one_by_one() {
    assert!(tier_is_set(5, 1) && !tier_is_set(5, 2) && tier_is_set(5, 4));
    assert_eq!(set_tier(5, 2), Some(7));
    assert_eq!(set_tier(5, 4), Some(5));
    assert_eq!(clear_tier(7, 2), Some(5));
    assert_eq!(clear_tier(5, 2), Some(5));
    let top = 1u64 << 63;
    let full = u64::MAX as i128;
    assert_eq!(set_tier(top as i128 - 1, top), Some(full));
    assert_eq!(clear_tier(full, top), Some(top as i128 - 1));
    assert!(!tier_is_set(full, 0));
    assert_eq!(set_tier(full, 0), Some(full));
    assert_eq!(set_tier(i128::MAX, 1), Some(i128::MAX));
    assert_eq!(set_tier(i128::MAX - 1, 3), None);
    assert!(tier_is_set(-1, 1) && tier_is_set(-1, top) && !tier_is_set(-2, 1));
    assert_eq!(set_tier(-2, 1), Some(-1));
    assert_eq!(clear_tier(-1, 2), Some(-3));
    assert_eq!(clear_tier(i128::MIN, 1), Some(i128::MIN));
    assert_eq!(clear_tier(i128::MIN, 3), None);
}

#[test]
fn setting_tiers_collects_them() {
    let mut block = Block::new();
    assert_eq!(block.placement_set("w", 1, 2), Ok(1));
    assert_eq!(block.placement_set("w", 4, 2), Ok(1));
    assert_eq!(raw(&block, "w").as_deref(), Some("2:5"));
    assert_eq!(block.placement_set("w", 4, 2), Ok(0));
    assert_eq!(raw(&block, "w").as_deref(), Some("2:5"));
    assert_eq!(block.get("w"), Some(field(2, Some(5))));
    assert_eq!(block.get("v"), None);
}

#[test]
fn newer_generation_starts_afresh() {
    let mut block = Block::new();
    assert_eq!(block.placement_set("w", 1, 2), Ok(1));
    assert_eq!(block.placement_set("w", 4, 3), Ok(1));
    assert_eq!(raw(&block, "w").as_deref(), Some("3:4"));
}

#[test]
fn older_writer_is_turned_away() {
    let mut block = Block::new();
    assert_eq!(block.placement_set("w", 1, 3), Ok(1));
    assert_eq!(block.placement_set("w", 2, 2), Ok(-1));
    assert_eq!(block.placement_clear("w", 1, 2), gone(-1, false));
    block.placement_clear_worker("w", 3).unwrap();
    assert_eq!(raw(&block, "w").as_deref(), Some("3:1"));
}

#[test]
fn legacy_entry_counts_as_generation_zero() {
    let mut block = Block::new();
    block.put_entry("w", "3".to_string());
    assert_eq!(block.placement_set("w", 2, 0), Ok(0));
    assert_eq!(raw(&block, "w").as_deref(), Some("3"));
    assert_eq!(block.placement_clear("w", 4, 0), gone(0, false));
    assert_eq!(raw(&block, "w").as_deref(), Some("0:3"));
    assert_eq!(block.placement_clear("w", 1, 0), gone(0, false));
    assert_eq!(raw(&block, "w").as_deref(), Some("0:2"));
}

#[test]
fn mask_that_does_not_fit_is_refused() {
    let mut block = Block::new();
    block.put_entry("w", format_field(1, &whole(i128::MAX - 1)));
    assert_eq!(block.placement_set("w", 3, 1), Err(BlockError::MaskOverflow));
    assert_eq!(block.get("w"), Some(field(1, Some(i128::MAX - 1))));
    assert_eq!(block.placement_set("w", 1, 1), Ok(1));
    assert_eq!(block.get("w"), Some(field(1, Some(i128::MAX))));
    block.put_entry("w", format_field(1, &whole(i128::MIN)));
    assert_eq!(block.placement_clear("w", 3, 1), Err(BlockError::MaskOverflow));
    assert_eq!(block.get("w"), Some(field(1, Some(i128::MIN))));
    assert_eq!(block.placement_clear("w", 1, 1), gone(0, false));
}

#[test]
fn clearing_the_last_tier_removes_the_worker() {
    let mut block = Block::new();
    block.placement_set("w", 1, 1).unwrap();
    block.placement_set("w", 2, 1).unwrap();
    block.placement_set("v", 1, 1).unwrap();
    assert_eq!(block.placement_clear("w", 1, 1), gone(0, false));
    assert_eq!(block.placement_clear("w", 2, 1), gone(1, false));
    assert_eq!(block.get("w"), None);
    assert_eq!(block.placement_clear("v", 1, 1), gone(1, true));
    assert!(block.match_hash().is_empty());
}

#[test]
fn clearing_again_reports_the_worker_gone_again() {
    let mut block = Block::new();
    block.placement_set("w", 1, 1).unwrap();
    assert_eq!(block.placement_clear("w", 1, 1), gone(1, true));
    assert_eq!(block.placement_clear("w", 1, 1), gone(1, true));
}

#[test]
fn clearing_drops_a_leftover_of_an_older_generation() {
    let mut block = Block::new();
    block.placement_set("w", 1, 1).unwrap();
    block.placement_set("w", 2, 1).unwrap();
    assert_eq!(block.placement_clear("w", 1, 2), gone(1, true));
    assert_eq!(block.get("w"), None);
}

#[test]
fn entry_with_an_unreadable_mask_stays() {
    let mut block = Block::new();
    block.put_entry("w", "7:?".to_string());
    assert_eq!(block.placement_clear("w", 1, 2), gone(1, false));
    assert_eq!(raw(&block, "w").as_deref(), Some("7:?"));
    assert_eq!(block.placement_set("w", 1, 2), Ok(-1));
    assert_eq!(block.placement_set("w", 1, 7), Ok(1));
    assert_eq!(raw(&block, "w").as_deref(), Some("7:1"));
}

#[test]
fn outdated_entries_are_dropped_and_current_ones_kept() {
    let mut block = Block::new();
    block.placement_set("w", 1, 1).unwrap();
    block.placement_set("v", 1, 1).unwrap();
    block.placement_clear_worker("w", 1).unwrap();
    assert!(block.get("w").is_some());
    block.placement_clear_worker("w", 2).unwrap();
    assert!(block.get("w").is_none());
    assert!(block.get("v").is_some());
}

#[test]
fn hits_are_counted_once_per_match() {
    let mut block = Block::new();
    block.placement_set("w", 1, 1).unwrap();
    block.placement_set("v", 1, 4).unwrap();
    assert_eq!(block.hit_bump(10, &vec![claim("w", 1), claim("v", 4)]), Ok(1));
    assert_eq!(block.hits(), Some(Hits { count: 1, last_seen: 10 }));
    assert_eq!(block.hit_bump(20, &vec![claim("x", 0), claim("v", 4)]), Ok(1));
    assert_eq!(block.hits(), Some(Hits { count: 2, last_seen: 20 }));
}

#[test]
fn outdated_match_counts_no_hit() {
    let mut block = Block::new();
    block.placement_set("w", 1, 2).unwrap();
    assert_eq!(block.hit_bump(10, &vec![claim("w", 1), claim("w", 3), claim("v", 2)]), Ok(0));
    assert_eq!(block.hit_bump(10, &Vec::new()), Ok(0));
    assert_eq!(block.hits(), None);
}

#[test]
fn hit_counter_goes_with_the_last_entry() {
    let mut block = Block::new();
    block.placement_set("w", 1, 1).unwrap();
    block.hit_bump(10, &vec![claim("w", 1)]).unwrap();
    assert_eq!(block.placement_clear("w", 1, 1), gone(1, true));
    assert_eq!(block.hits(), None);

    block.placement_set("w", 1, 1).unwrap();
    block.hit_bump(10, &vec![claim("w", 1)]).unwrap();
    block.placement_clear_worker("w", 2).unwrap();
    assert_eq!(block.hits(), None);
}

#[test]
fn hit_that_cannot_be_counted_is_an_error() {
    let full = Hits { count: i64::MAX, last_seen: 3 };
    let mut block = Block::load(&vec![entry("w", "1:1")], Some(full));
    assert_eq!(block.hit_bump(10, &vec![claim("w", 2)]), Ok(0));
    assert_eq!(block.hit_bump(10, &vec![claim("w", 1)]), Err(BlockError::CounterOverflow));
    assert_eq!(block.hits(), Some(full));
}

#[test]
fn stored_block_is_loaded_as_it_is() {
    let block = Block::load(&vec![entry("w", "1:1"), entry("v", "6"), entry("w", "2:4")], None);
    assert_eq!(block.match_hash().len(), 2);
    assert_eq!(raw(&block, "w").as_deref(), Some("2:4"));
    assert_eq!(raw(&block, "v").as_deref(), Some("6"));
    assert_eq!(block.hits(), None);
}

#[test]
fn stored_number_of_another_form_counts() {
    let mut block = Block::load(&vec![entry("w", "1e1")], None);
    assert_eq!(block.placement_set("w", 2, 0), Ok(0));
    assert_eq!(raw(&block, "w").as_deref(), Some("1e1"));
    assert_eq!(block.placement_set("w", 1, 0), Ok(1));
    assert_eq!(raw(&block, "w").as_deref(), Some("0:11"));
    block.put_entry("w", " 3:5".to_string());
    assert_eq!(block.placement_set("w", 1, 2), Ok(-1));
    assert_eq!(block.placement_clear("w", 4, 3), gone(0, false));
    assert_eq!(raw(&block, "w").as_deref(), Some("3:1"));
}

#[test]
fn mask_with_a_fraction_keeps_it() {
    let mut block = stored("1:2.5");
    assert_eq!(block.placement_set("w", 2, 1), Ok(0));
    assert_eq!(block.placement_set("w", 1, 1), Ok(1));
    assert_eq!(raw(&block, "w").as_deref(), Some("1:3.5"));
    assert_eq!(block.placement_set("w", 1, 1), Ok(0));
    assert_eq!(block.placement_clear("w", 2, 1), gone(0, false));
    assert_eq!(raw(&block, "w").as_deref(), Some("1:1.5"));
    assert_eq!(block.placement_clear("w", 1, 1), gone(0, false));
    assert_eq!(raw(&block, "w").as_deref(), Some("1:0.5"));
    assert_eq!(block.placement_clear("w", 1, 2), gone(1, true));
}

#[test]
fn mask_below_zero_holds_the_tiers_of_its_complement() {
    let mut block = stored("1:-3");
    assert_eq!(block.placement_set("w", 1, 1), Ok(0));
    assert_eq!(block.placement_set("w", 2, 1), Ok(1));
    assert_eq!(raw(&block, "w").as_deref(), Some("1:-1"));
    assert_eq!(block.placement_clear("w", 4, 1), gone(0, false));
    assert_eq!(raw(&block, "w").as_deref(), Some("1:-5"));
    let mut block = stored("1:-0.3");
    assert_eq!(block.placement_clear("w", 1, 1), gone(0, false));
    assert_eq!(raw(&block, "w").as_deref(), Some("1:-1.3"));
}

#[test]
fn generation_between_two_is_newer_or_older() {
    let mut block = stored("2.5:1");
    assert_eq!(block.placement_set("w", 1, 2), Ok(-1));
    assert_eq!(block.placement_clear("w", 1, 2), gone(-1, false));
    assert_eq!(block.hit_bump(1, &vec![claim("w", 2), claim("w", 3)]), Ok(0));
    assert_eq!(block.placement_clear_worker("w", 2), Ok(()));
    assert_eq!(raw(&block, "w").as_deref(), Some("2.5:1"));
    assert_eq!(block.placement_set("w", 4, 3), Ok(1));
    assert_eq!(raw(&block, "w").as_deref(), Some("3:4"));
}

#[test]
fn mask_that_cannot_be_held_matters_only_where_it_is_read() {
    for mask in ["1e999", "-1e99", "1e-99"] {
        let text = format!("2:{mask}");
        let mut block = stored(&text);
        assert_eq!(block.placement_set("w", 1, 1), Ok(-1));
        assert_eq!(block.placement_clear("w", 1, 1), gone(-1, false));
        assert_eq!(block.placement_set("w", 1, 2), Err(BlockError::Unreadable));
        assert_eq!(block.placement_clear("w", 1, 2), Err(BlockError::Unreadable));
        assert_eq!(block.hit_bump(5, &vec![claim("w", 2)]), Ok(1));
        assert_eq!(block.placement_clear_worker("w", 2), Ok(()));
        assert_eq!(raw(&block, "w").as_deref(), Some(text.as_str()));
        assert_eq!(block.placement_clear("w", 1, 3), gone(1, true));
        let mut block = stored(&text);
        assert_eq!(block.placement_set("w", 1, 3), Ok(1));
        assert_eq!(raw(&block, "w").as_deref(), Some("3:1"));
        let mut block = stored(&text);
        assert_eq!(block.placement_clear_worker("w", 3), Ok(()));
        assert_eq!(block.get("w"), None);
    }
}

#[test]
fn number_on_which_engines_do_not_agree_is_not_guessed() {
    let mut block = stored("2:nan");
    assert_eq!(block.placement_clear("w", 1, 3), Err(BlockError::Unreadable));
    assert_eq!(block.placement_set("w", 1, 1), Ok(-1));
    assert_eq!(block.hit_bump(5, &vec![claim("w", 2)]), Ok(1));
    assert_eq!(block.placement_set("w", 1, 3), Ok(1));
    let mut block = stored("inf:1");
    assert_eq!(block.placement_set("w", 1, 1), Err(BlockError::Unreadable));
    assert_eq!(block.placement_clear("w", 1, 1), Err(BlockError::Unreadable));
    assert_eq!(block.placement_clear_worker("w", 1), Err(BlockError::Unreadable));
    assert_eq!(block.hit_bump(5, &vec![claim("w", 1)]), Err(BlockError::Unreadable));
    assert_eq!(raw(&block, "w").as_deref(), Some("inf:1"));
    let mut block = stored("inf:x");
    assert_eq!(block.placement_clear("w", 1, 1), gone(1, false));
}

#[test]
fn workers_share_blocks_and_hits() {
    let mut block_0 = Block::new();
    let mut block_1 = Block::new();
    let mut shared = Block::new();
    let miss = Block::new();
    block_0.placement_set("worker-0", 1, 0).unwrap();
    shared.placement_set("worker-0", 1, 0).unwrap();
    block_1.placement_set("worker-1", 1, 0).unwrap();
    shared.placement_set("worker-1", 1, 0).unwrap();
    let holders: Vec<&str> = [&block_0, &block_1, &shared]
        .into_iter()
        .flat_map(|b| b.match_hash().iter().map(|e| e.worker_id.as_str()))
        .collect();
    assert!(holders.contains(&"worker-0"));
    assert!(holders.contains(&"worker-1"));
    block_0.hit_bump(1, &vec![claim("worker-0", 0)]).unwrap();
    assert!(block_0.hits().unwrap().count >= 1);
    assert_eq!(miss.hits(), None);
}

#[test]
fn cut_batch_is_repaired_by_a_replay() {
    let batch = [(true, 1), (true, 2), (false, 1), (true, 4), (false, 2)];
    let run = |block: &mut Block, n: usize| {
        for (set, bit) in &batch[..n] {
            if *set {
                block.placement_set("w", *bit, 3).unwrap();
            } else {
                block.placement_clear("w", *bit, 3).unwrap();
            }
        }
    };
    for text in ["9", "3:9", "2:9", "3:?", "4:1", " 3:1e1", "3:-2.5", "3:1e20", "2.5:6"] {
        let start = Block::load(&vec![entry("w", text), entry("v", "1:1")], None);
        let mut once = start.clone();
        run(&mut once, batch.len());
        for cut in 0..=batch.len() {
            let mut twice = start.clone();
            run(&mut twice, cut);
            run(&mut twice, batch.len());
            assert_eq!(raw(&twice, "w"), raw(&once, "w"));
            assert_eq!(raw(&twice, "v").as_deref(), Some("1:1"));
        }
    }
}
