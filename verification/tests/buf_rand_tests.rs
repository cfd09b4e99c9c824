use buf_rand::BufRand;
use buf_rand::RandomSource;
use buf_rand::ThreadSource;

/// A deterministic source that replays a fixed list of words, cycling.
struct ReplaySource {
    values: Vec<u64>,
    index: usize,
}

impl ReplaySource {
    fn new(values: Vec<u64>) -> ReplaySource {
        ReplaySource { values, index: 0 }
    }
}

impl RandomSource for ReplaySource {
    fn next_u64(&mut self) -> u64 {
        let v = self.values[self.index % self.values.len()];
        self.index += 1;
        v
    }
}

#[test]
fn refill_happens_on_first_call() {
    let mut r = BufRand::new(ReplaySource::new(vec![0]));
    assert_eq!(r.rand.index, 0);
    r.next_bool();
    assert_eq!(r.rand.index, 1);
}

#[test]
fn zero_word_gives_sixty_four_equal_draws() {
    // The first word is all zero bits: with the bit-0-means-true convention,
    // all 64 draws are true and none comes from a pre-seeded default buffer.
    let mut r = BufRand::new(ReplaySource::new(vec![0, u64::MAX]));
    for _ in 0..64 {
        assert!(r.next_bool());
    }
    assert_eq!(r.rand.index, 1);
    // The 65th draw triggers exactly one new refill, now with all one bits.
    assert!(!r.next_bool());
    assert_eq!(r.rand.index, 2);
}

#[test]
fn alternating_word_alternates() {
    let mut r = BufRand::new(ReplaySource::new(vec![0xAAAA_AAAA_AAAA_AAAA]));
    for k in 0..64 {
        assert_eq!(r.next_bool(), k % 2 == 0);
    }
    assert_eq!(r.rand.index, 1);
}

#[test]
fn string_case_upper_then_lower() {
    // Bit 0 is 0 (uppercase draw), bit 1 is 1 (lowercase draw).
    let mut r = BufRand::new(ReplaySource::new(vec![0b10]));
    assert_eq!(r.rand_string_case("AB"), "Ab");
}

#[test]
fn sharp_s_uppercases_to_double_s() {
    // An uppercase draw on a character whose uppercase mapping is two
    // characters yields both of them.
    let mut r = BufRand::new(ReplaySource::new(vec![0]));
    assert_eq!(r.rand_char_case(&'ß'), "SS");
}

#[test]
fn char_case_follows_the_draw() {
    let mut up = BufRand::new(ReplaySource::new(vec![0]));
    assert_eq!(up.rand_char_case(&'a'), "A");
    let mut low = BufRand::new(ReplaySource::new(vec![u64::MAX]));
    assert_eq!(low.rand_char_case(&'A'), "a");
}

#[test]
fn char_case_is_never_empty() {
    for c in ['a', 'Z', 'ß', 'ǅ', '5', ' ', '\u{0}', 'İ', 'и'] {
        let mut r = BufRand::new(ReplaySource::new(vec![0]));
        assert!(!r.rand_char_case(&c).is_empty());
        let mut r = BufRand::new(ReplaySource::new(vec![u64::MAX]));
        assert!(!r.rand_char_case(&c).is_empty());
    }
}

#[test]
fn order_preserved_concatenation() {
    // Bits 0..6, low first: 0,1,0,1,0,1 — upper, lower, upper, lower, ...
    let mut r = BufRand::new(ReplaySource::new(vec![0b101010]));
    assert_eq!(r.rand_string_case("Straße"), "StRaSSe");
}

#[test]
fn deterministic_replay() {
    let values = vec![0x1234_5678_9ABC_DEF0, 7, u64::MAX, 0];
    let mut a = BufRand::new(ReplaySource::new(values.clone()));
    let mut b = BufRand::new(ReplaySource::new(values));
    for _ in 0..100 {
        assert_eq!(a.next_bool(), b.next_bool());
    }
    assert_eq!(a.rand_string_case("Mixed CASE text"), b.rand_string_case("Mixed CASE text"));
    assert_eq!(a.rand_char_case(&'q'), b.rand_char_case(&'q'));
}

#[test]
fn empty_string_draws_nothing() {
    let mut r = BufRand::new(ReplaySource::new(vec![7]));
    assert_eq!(r.rand_string_case(""), "");
    assert_eq!(r.rand.index, 0);
}

#[test]
fn raw_access_does_not_disturb_buffer() {
    let mut r = BufRand::new(ReplaySource::new(vec![0b10, 99, 77]));
    // First draw refills with 0b10 and reads bit 0 (true).
    assert!(r.next_bool());
    // A raw draw straight from the source skips the bit buffer.
    assert_eq!(r.rand.next_u64(), 99);
    // The next buffered draw still reads bit 1 of the first word (false),
    // without any new refill.
    assert!(!r.next_bool());
    assert_eq!(r.rand.index, 2);
}

#[test]
fn thread_source_smoke() {
    let mut r = BufRand::new(ThreadSource::new());
    for _ in 0..200 {
        r.next_bool();
    }
    let s = r.rand_string_case("Hello, World!");
    assert_eq!(s.to_lowercase(), "hello, world!");
    let c = r.rand_char_case(&'e');
    assert!(c == "E" || c == "e");
}
