use gerf::{
    gate, generate, read_reply, Content, Gate, Reply, Size, SizeError, Unit, Vocabulary, MAXSIZE,
    WARNSIZE,
};
use rand::rngs::StdRng;
use rand::SeedableRng;

const WORDS: [&str; 12] = [
    " ", "\n", "et", "est", "elit", "wasd", " ", "dolor", "labore", "eiusmod", "aliquaer",
    "adipisici",
];
const NUMS: [&str; 12] = [" ", "\n", "0", "1", "2", "3", "4", "5", "6", "7", "8", "9"];

#[test]
#[should_panic]
fn max_size_test() {
    let size: u64 = 5368709121; // MAXSIZE = 5368709120 == 5 GB
    assert!(size as u64 <= MAXSIZE);
}

#[test]
fn create_content_new_test() {
    let vec: Vec<&str> = Vec::new();
    let content = Content::new();
    assert!(content.lines.is_empty());
    assert_eq!(content.lines, vec);
}

#[test]
fn create_content_from_test() {
    let content = Content::from(vec!["one", "two", "three"]);
    assert_eq!(content.lines, vec!["one", "two", "three"]);
}

#[test]
fn content_size_test() {
    let size: u64 = 1000;
    let mut rng = StdRng::seed_from_u64(1000);
    let content = Content::new()
        .genrand_content(size, &mut rng)
        .shrink_to_size(size)
        .collect_string();
    assert!(content.len() == size as usize);
}

#[test]
fn content_shrink_size_test() {
    let size: u64 = 8;

    let content = Content::from(vec!["one", "two", "three"]).collect_string();
    assert!(content.len() != size as usize);

    let content = Content::from(vec!["one", "two", "three"])
        .shrink_to_size(size)
        .collect_string();
    assert!(content.len() == size as usize);
}

#[test]
fn collect_string_test() {
    let result = Content::from(vec!["This", " ", "is", " ", "a", " ", "test"]).collect_string();
    let expect = "This is a test";
    assert_eq!(result, expect);
}

#[test]
fn unit_convertion_b_test() {
    let size = Size {
        size: 123,
        unit: Unit::Byte,
    };
    let result = size.convert();
    let expect: u64 = 123;
    assert_eq!(result, expect);
}

#[test]
fn unit_convertion_kb_test() {
    let size = Size {
        size: 123,
        unit: Unit::Kilobyte,
    };
    let result = size.convert();
    let expect: u64 = 125952; // 123 * 1024
    assert_eq!(result, expect);
}

#[test]
fn unit_convertion_mb_test() {
    let size = Size {
        size: 123,
        unit: Unit::Megabyte,
    };
    let result = size.convert();
    let expect: u64 = 128974848; // 123 * 1024 * 1024
    assert_eq!(result, expect);
}

#[test]
fn unit_convertion_gb_test() {
    let size = Size {
        size: 123,
        unit: Unit::Gigabyte,
    };
    let result = size.convert();
    let expect: u64 = 132070244352; // 123 * 1024 * 1024 * 1024
    assert_eq!(result, expect);
}

#[test]
fn unit_conversion_tb_test() {
    let size = Size {
        size: 123,
        unit: Unit::Terabyte,
    };
    assert_eq!(size.convert(), 135239930216448);
}

#[test]
fn unit_conversion_saturates() {
    let size = Size {
        size: u64::MAX,
        unit: Unit::Kilobyte,
    };
    assert_eq!(size.convert(), u64::MAX);
    let size = Size {
        size: 16 * 1024 * 1024,
        unit: Unit::Terabyte,
    };
    assert_eq!(size.convert(), u64::MAX);
}

#[test]
fn conversion_is_repeatable() {
    let size = Size {
        size: 77,
        unit: Unit::Megabyte,
    };
    assert_eq!(size.convert(), size.convert());
    assert_eq!(size.convert(), 77 * 1024 * 1024);
}

#[test]
fn size_from_flags() {
    assert_eq!(
        Size::from(5, false, false, false, false),
        Ok(Size { size: 5, unit: Unit::Byte })
    );
    assert_eq!(
        Size::from(5, true, false, false, false),
        Ok(Size { size: 5, unit: Unit::Kilobyte })
    );
    assert_eq!(
        Size::from(5, false, true, false, false),
        Ok(Size { size: 5, unit: Unit::Megabyte })
    );
    assert_eq!(
        Size::from(5, false, false, true, false),
        Ok(Size { size: 5, unit: Unit::Gigabyte })
    );
    assert_eq!(
        Size::from(5, false, false, false, true),
        Ok(Size { size: 5, unit: Unit::Terabyte })
    );
    assert_eq!(
        Size::from(5, true, false, true, false),
        Err(SizeError::ConflictingUnits)
    );
}

#[test]
fn generate_has_exact_length() {
    for (seed, size) in [(1u64, 0u64), (2, 1), (3, 2), (4, 8), (5, 1000), (6, 4096)] {
        let mut rng = StdRng::seed_from_u64(seed);
        let words = generate(size, Vocabulary::Words, &mut rng);
        assert_eq!(words.len(), size as usize);
        let mut rng = StdRng::seed_from_u64(seed);
        let nums = generate(size, Vocabulary::Numbers, &mut rng);
        assert_eq!(nums.len(), size as usize);
        assert!(nums.chars().all(|c| c == ' ' || c == '\n' || c == '-' || c.is_ascii_digit()));
    }
}

#[test]
fn generate_zero_is_empty() {
    let mut rng = StdRng::seed_from_u64(9);
    assert_eq!(generate(0, Vocabulary::Words, &mut rng), "");
}

#[test]
fn generate_below_shortest_token() {
    let mut rng = StdRng::seed_from_u64(11);
    let text = generate(1, Vocabulary::Words, &mut rng);
    assert_eq!(text, "-");
    let content = Content::from(vec!["adipisici"]).shrink_to_size(1).collect_string();
    assert_eq!(content, "-");
    let content = Content::from(vec!["adipisici", "et"]).shrink_to_size(3).collect_string();
    assert_eq!(content, "adi");
}

#[test]
fn generate_is_reproducible_with_a_seed() {
    let mut a = StdRng::seed_from_u64(42);
    let mut b = StdRng::seed_from_u64(42);
    assert_eq!(
        generate(500, Vocabulary::Words, &mut a),
        generate(500, Vocabulary::Words, &mut b)
    );
}

#[test]
fn fill_draws_from_the_table() {
    let mut rng = StdRng::seed_from_u64(7);
    let mut content = Content::new();
    content.fill(200, Vocabulary::Words, &mut rng);
    assert!(!content.lines.is_empty());
    assert!(content.lines.len() <= 200);
    assert!(content.lines.iter().all(|t| WORDS.contains(t)));
    let before_last: usize = content.lines[..content.lines.len() - 1]
        .iter()
        .map(|t| t.len())
        .sum();
    assert!(before_last < 200);
    let distinct = WORDS.iter().filter(|w| content.lines.contains(w)).count();
    assert!(distinct > 1);
}

#[test]
fn fill_respects_the_draw_ceiling() {
    let mut rng = StdRng::seed_from_u64(8);
    let mut content = Content::new();
    content.fill(0, Vocabulary::Numbers, &mut rng);
    assert!(content.lines.is_empty());
    content.fill(1, Vocabulary::Numbers, &mut rng);
    assert_eq!(content.lines.len(), 1);
    let mut content = Content::new();
    content.fill(3, Vocabulary::Numbers, &mut rng);
    assert!(!content.lines.is_empty() && content.lines.len() <= 3);
}

#[test]
fn genrand_num_uses_digits() {
    let mut rng = StdRng::seed_from_u64(300);
    let mut content = Content::new();
    content.genrand_num(300, &mut rng);
    assert!(content.lines.iter().all(|t| NUMS.contains(t)));
    let text = content.shrink_to_size(300).collect_string();
    assert_eq!(text.len(), 300);
}

#[test]
fn shrink_pads_with_dashes() {
    let content = Content::from(vec!["one", "two", "three"]).shrink_to_size(8).collect_string();
    assert_eq!(content, "onetwo--");
    let content = Content::new().shrink_to_size(3).collect_string();
    assert_eq!(content, "---");
}

#[test]
fn shrink_cuts_long_content() {
    let content = Content::from(vec!["one", "two", "three"]).shrink_to_size(4).collect_string();
    assert_eq!(content, "onet");
    let content = Content::from(vec!["one", "two", "three"]).shrink_to_size(6).collect_string();
    assert_eq!(content, "onetwo");
    let content = Content::from(vec!["one", "two"]).shrink_to_size(0).collect_string();
    assert_eq!(content, "");
}

#[test]
fn chunked_join_matches_whole_join() {
    let tokens = vec!["This", " ", "is", " ", "a", " ", "test"];
    let whole = Content::from(tokens.clone()).collect_string();
    let mut pieces = String::new();
    for chunk in tokens.chunks(3) {
        pieces.push_str(&Content::from(chunk.to_vec()).collect_string());
    }
    assert_eq!(whole, pieces);
    assert_eq!(whole, "This is a test");
}

#[test]
fn gate_below_warning_size_proceeds() {
    assert_eq!(gate(0, false), Gate::Proceed);
    assert_eq!(gate(WARNSIZE, false), Gate::Proceed);
    assert_eq!(gate(WARNSIZE, true), Gate::Proceed);
    assert_eq!(WARNSIZE, 104857600);
}

#[test]
fn gate_above_warning_size() {
    assert_eq!(gate(WARNSIZE + 1, false), Gate::NeedsExceed);
    assert_eq!(gate(WARNSIZE + 1, true), Gate::Confirm);
    assert_eq!(gate(MAXSIZE, true), Gate::Confirm);
}

#[test]
fn gate_above_maximum_refuses() {
    assert_eq!(MAXSIZE, 5368709120);
    assert_eq!(gate(MAXSIZE + 1, false), Gate::TooLarge);
    assert_eq!(gate(MAXSIZE + 1, true), Gate::TooLarge);
    assert_eq!(gate(u64::MAX, true), Gate::TooLarge);
}

#[test]
fn replies() {
    assert_eq!(read_reply("y"), Reply::Yes);
    assert_eq!(read_reply("Y"), Reply::Yes);
    assert_eq!(read_reply(""), Reply::No);
    assert_eq!(read_reply("n"), Reply::No);
    assert_eq!(read_reply("N"), Reply::No);
    assert_eq!(read_reply("yes"), Reply::Unclear);
    assert_eq!(read_reply("x"), Reply::Unclear);
}

#[test]
fn vocabulary_from_flags() {
    assert_eq!(Vocabulary::from_flags(false, false), Vocabulary::Words);
    assert_eq!(Vocabulary::from_flags(true, false), Vocabulary::Words);
    assert_eq!(Vocabulary::from_flags(true, true), Vocabulary::Words);
    assert_eq!(Vocabulary::from_flags(false, true), Vocabulary::Numbers);
    assert_eq!(Vocabulary::Words.tokens(), WORDS.to_vec());
    assert_eq!(Vocabulary::Numbers.tokens(), NUMS.to_vec());
}

#[test]
fn shrink_keeps_tokens_and_pads() {
    let mut content = Content::from(vec!["one", "two", "three"]);
    let copy = content.shrink_to_size(8);
    assert_eq!(content.lines, vec!["one", "two", "-", "-"]);
    assert_eq!(copy.lines, content.lines);
    let mut content = Content::from(vec!["ab", "", "zz"]);
    content.shrink_to_size(2);
    assert_eq!(content.lines, vec!["ab", ""]);
}

#[test]
fn shrink_single_long_token_gives_dashes() {
    let mut content = Content::from(vec!["adipisici"]);
    content.shrink_to_size(3);
    assert_eq!(content.lines, vec!["-", "-", "-"]);
}

#[test]
fn shrink_empty_to_zero_is_empty() {
    let mut content = Content::new();
    let copy = content.shrink_to_size(0);
    assert!(content.lines.is_empty());
    assert!(copy.lines.is_empty());
}

#[test]
fn shrink_cut_token_lists() {
    let mut content = Content::from(vec!["one", "two", "three", "x"]);
    content.shrink_to_size(5);
    assert_eq!(content.lines, vec!["one", "tw"]);
    let mut content = Content::from(vec!["one", "two", "three", "x"]);
    content.shrink_to_size(6);
    assert_eq!(content.lines, vec!["one", "two"]);
    let mut content = Content::from(vec!["one", "two", "x"]);
    content.shrink_to_size(0);
    assert!(content.lines.is_empty());
}

#[test]
fn split_collect_matches_whole() {
    let a = vec!["This", " ", "is"];
    let b = vec![" ", "a", " ", "test"];
    let mut all = a.clone();
    all.extend(b.iter());
    let whole = Content::from(all.clone()).collect_string();
    let parts = Content::from(a).collect_string() + &Content::from(b).collect_string();
    assert_eq!(whole, parts);
    assert_eq!(whole.len(), all.iter().map(|t| t.len()).sum::<usize>());
}
