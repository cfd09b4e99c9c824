//! A bit-buffered boolean randomizer: 64 random bits are drawn from the
//! source at once and handed out one at a time, and the resulting boolean
//! stream randomizes the letter-case of text.

use vstd::prelude::*;
use vstd::string::StrSliceExecFns;
use vstd::string::StringExecFns;
use crate::casing::case_of;
use crate::casing::cased;
use crate::casing::char_lower;
use crate::casing::char_upper;
use crate::casing::lemma_cased_push;
use crate::source::RandomSource;

verus! {

/// The boolean read from the low bit of a buffer word: `true` exactly when
/// that bit is 0. This polarity is the fixed convention of the whole library.
pub open spec fn bit_to_bool(w: u64) -> bool {
    w % 2 == 0
}

/// Generates random booleans by buffering one 64-bit word from a
/// [`RandomSource`] and draining it bit by bit, least-significant bit first.
pub struct BufRand<R> {
    /// Not-yet-consumed random bits, a shift register drained from the low end.
    bit_buf: u64,
    /// How many bits of `bit_buf` have been consumed: 0 to 64, or the
    /// sentinel 0xff meaning the buffer was never filled and must be refilled
    /// before any bit is read.
    shift_counter: u8,
    /// The owned random source, exposed so that a caller can draw raw values
    /// directly without disturbing the bit buffer.
    pub rand: R,
}

impl<R> BufRand<R> {
    /// The not-yet-consumed bits of the buffered word.
    pub closed spec fn buffer(self) -> u64 {
        self.bit_buf
    }

    /// How many bits of the buffered word have been consumed, or the sentinel
    /// 0xff for a buffer that was never filled.
    pub closed spec fn consumed(self) -> u8 {
        self.shift_counter
    }

    /// The owned source, as contracts see it.
    pub closed spec fn src(self) -> R {
        self.rand
    }

    /// Whether the next draw must fetch a fresh word from the source: the
    /// buffer is either fully drained or was never filled.
    pub open spec fn needs_refill(self) -> bool {
        self.consumed() >= 64
    }

    /// The consumed-bit counter is a real bit count or the sentinel; no value
    /// strictly between 64 and 0xff ever arises.
    pub open spec fn wf(self) -> bool {
        self.consumed() <= 64 || self.consumed() == 0xff
    }
}

/// The state and result of a draw that refilled the buffer with the word `w`:
/// the boolean comes from bit 0 of `w`, and the remaining 63 bits stay
/// buffered with one bit consumed.
pub open spec fn refill_draw<R>(post: BufRand<R>, b: bool, w: u64) -> bool {
    &&& b == bit_to_bool(w)
    &&& post.buffer() == w >> 1
    &&& post.consumed() == 1
}

/// One boolean draw takes `pre` to `post` yielding `b`, with `ws` the words
/// it requested from the source: none when buffered bits remained, exactly
/// one when the buffer had to be refilled.
pub open spec fn draw_step<R>(pre: BufRand<R>, post: BufRand<R>, b: bool, ws: Seq<u64>) -> bool {
    if pre.needs_refill() {
        ws.len() == 1 && refill_draw(post, b, ws[0])
    } else {
        &&& ws.len() == 0
        &&& b == bit_to_bool(pre.buffer())
        &&& post.buffer() == pre.buffer() >> 1
        &&& post.consumed() == pre.consumed() + 1
        &&& post.src() == pre.src()
    }
}

/// A run of boolean draws, in order, takes `pre` to `post` yielding the
/// booleans `bs`, with `ws` all the words the run requested from the source.
pub open spec fn draws<R>(pre: BufRand<R>, post: BufRand<R>, bs: Seq<bool>, ws: Seq<u64>) -> bool
    decreases bs.len(),
{
    if bs.len() == 0 {
        post == pre && ws.len() == 0
    } else if pre.needs_refill() {
        ws.len() >= 1 && exists|mid: BufRand<R>|
            #[trigger] draw_step(pre, mid, bs[0], ws.take(1)) && draws(
                mid,
                post,
                bs.drop_first(),
                ws.drop_first(),
            )
    } else {
        exists|mid: BufRand<R>|
            #[trigger] draw_step(pre, mid, bs[0], Seq::<u64>::empty()) && draws(
                mid,
                post,
                bs.drop_first(),
                ws,
            )
    }
}

/// Through a run that starts with a partly drained buffer, the draws read
/// the remaining buffered bits in order, low bit first; the source is asked
/// for a fresh word exactly when the counter reaches 64.
proof fn lemma_draws_reads_buffer<R>(
    pre: BufRand<R>,
    post: BufRand<R>,
    bs: Seq<bool>,
    ws: Seq<u64>,
)
    requires
        draws(pre, post, bs, ws),
        pre.consumed() <= 64,
        pre.consumed() + bs.len() <= 65,
    ensures
        forall|k: u64|
            k < bs.len() && pre.consumed() + k < 64 ==> bs[k as int] == (((pre.buffer() >> k) & 1)
                == 0),
        pre.consumed() + bs.len() <= 64 ==> ws.len() == 0 && post.consumed() == pre.consumed()
            + bs.len() && post.buffer() == pre.buffer() >> (bs.len() as u64),
        pre.consumed() + bs.len() == 65 ==> ws.len() == 1 && post.consumed() == 1 && bs[bs.len()
            - 1] == bit_to_bool(ws[0]) && post.buffer() == ws[0] >> 1,
    decreases bs.len(),
{
    let w = pre.buffer();
    if bs.len() == 0 {
        assert(w >> 0u64 == w) by (bit_vector);
    } else if pre.consumed() < 64 {
        let m = choose|m: BufRand<R>|
            #[trigger] draw_step(pre, m, bs[0], Seq::<u64>::empty()) && draws(
                m,
                post,
                bs.drop_first(),
                ws,
            );
        lemma_draws_reads_buffer(m, post, bs.drop_first(), ws);
        assert forall|k: u64|
            k < bs.len() && pre.consumed() + k < 64 implies bs[k as int] == (((w >> k) & 1)
            == 0) by {
            if k == 0 {
                assert((w % 2 == 0) == (((w >> 0u64) & 1) == 0)) by (bit_vector);
            } else {
                let km1: u64 = (k - 1) as u64;
                assert(bs.drop_first()[km1 as int] == (((m.buffer() >> km1) & 1) == 0));
                assert(((w >> 1u64) >> km1) == (w >> k) && (w >> 1u64) == (w >> 1))
                    by (bit_vector)
                    requires
                        km1 == k - 1,
                        1 <= k <= 64,
                ;
            }
        }
        if pre.consumed() + bs.len() <= 64 {
            let len: u64 = bs.len() as u64;
            assert(((w >> 1u64) >> ((len - 1) as u64)) == (w >> len) && (w >> 1u64) == (w >> 1))
                by (bit_vector)
                requires
                    1 <= len <= 64,
            ;
        }
    } else {
        assert(bs.len() == 1);
        let m = choose|m: BufRand<R>|
            #[trigger] draw_step(pre, m, bs[0], ws.take(1)) && draws(
                m,
                post,
                bs.drop_first(),
                ws.drop_first(),
            );
        assert(ws.take(1)[0] == ws[0]);
        assert(post == m);
        assert(ws.drop_first().len() == 0);
    }
}

/// No bias from the zero-initialized buffer: from a freshly constructed
/// randomizer (or any exhausted one) a draw requests exactly one fresh word
/// and reads that word's lowest bit — never the untouched all-zero buffer.
pub proof fn lemma_first_draw_refills<R>(
    pre: BufRand<R>,
    post: BufRand<R>,
    b: bool,
    ws: Seq<u64>,
)
    requires
        draw_step(pre, post, b, ws),
        pre.needs_refill(),
    ensures
        ws.len() == 1,
        b == bit_to_bool(ws[0]),
        post.consumed() == 1,
        post.buffer() == ws[0] >> 1,
{
}

/// Bit exhaustion: a run of up to 65 draws that begins on an exhausted (or
/// never filled) buffer starts with a single refill, then consumes the 64
/// bits of the refilled word exactly once each, in order from the
/// least-significant bit, without asking the source for another word; the
/// 64th draw exhausts the buffer again, and a 65th draw requests exactly one
/// new word and reads its lowest bit.
pub proof fn lemma_bit_exhaustion<R>(
    pre: BufRand<R>,
    post: BufRand<R>,
    bs: Seq<bool>,
    ws: Seq<u64>,
)
    requires
        draws(pre, post, bs, ws),
        pre.needs_refill(),
        1 <= bs.len() <= 65,
    ensures
        ws.len() >= 1,
        forall|k: u64| k < bs.len() && k < 64 ==> bs[k as int] == (((ws[0] >> k) & 1) == 0),
        bs.len() <= 64 ==> ws.len() == 1 && post.consumed() == bs.len(),
        bs.len() == 64 ==> post.needs_refill(),
        bs.len() == 65 ==> ws.len() == 2 && bs[64] == bit_to_bool(ws[1]) && post.consumed() == 1,
    decreases bs.len(),
{
    let m = choose|m: BufRand<R>|
        #[trigger] draw_step(pre, m, bs[0], ws.take(1)) && draws(
            m,
            post,
            bs.drop_first(),
            ws.drop_first(),
        );
    let w = ws[0];
    assert(ws.take(1)[0] == w);
    lemma_draws_reads_buffer(m, post, bs.drop_first(), ws.drop_first());
    assert forall|k: u64|
        k < bs.len() && k < 64 implies bs[k as int] == (((w >> k) & 1) == 0) by {
        if k == 0 {
            assert((w % 2 == 0) == (((w >> 0u64) & 1) == 0)) by (bit_vector);
        } else {
            let km1: u64 = (k - 1) as u64;
            assert(bs.drop_first()[km1 as int] == (((m.buffer() >> km1) & 1) == 0));
            assert(((w >> 1u64) >> km1) == (w >> k) && (w >> 1u64) == (w >> 1))
                by (bit_vector)
                requires
                    km1 == k - 1,
                    1 <= k <= 64,
            ;
        }
    }
    if bs.len() <= 64 {
        assert(ws.drop_first().len() == 0);
    } else {
        assert(ws.drop_first().len() == 1);
        assert(ws.drop_first()[0] == ws[1]);
    }
}

/// Determinism: two runs of equal length from states with equal buffers and
/// counters, over sources (of possibly different types) that hand back the
/// same words, yield the same booleans and end with equal buffers and
/// counters.
pub proof fn lemma_draws_deterministic<R1, R2>(
    pre1: BufRand<R1>,
    post1: BufRand<R1>,
    pre2: BufRand<R2>,
    post2: BufRand<R2>,
    bs1: Seq<bool>,
    bs2: Seq<bool>,
    ws: Seq<u64>,
)
    requires
        draws(pre1, post1, bs1, ws),
        draws(pre2, post2, bs2, ws),
        bs1.len() == bs2.len(),
        pre1.buffer() == pre2.buffer(),
        pre1.consumed() == pre2.consumed(),
    ensures
        bs1 == bs2,
        post1.buffer() == post2.buffer(),
        post1.consumed() == post2.consumed(),
    decreases bs1.len(),
{
    if bs1.len() == 0 {
        assert(bs1 =~= bs2);
    } else if pre1.needs_refill() {
        let m1 = choose|m: BufRand<R1>|
            #[trigger] draw_step(pre1, m, bs1[0], ws.take(1)) && draws(
                m,
                post1,
                bs1.drop_first(),
                ws.drop_first(),
            );
        let m2 = choose|m: BufRand<R2>|
            #[trigger] draw_step(pre2, m, bs2[0], ws.take(1)) && draws(
                m,
                post2,
                bs2.drop_first(),
                ws.drop_first(),
            );
        lemma_draws_deterministic(
            m1,
            post1,
            m2,
            post2,
            bs1.drop_first(),
            bs2.drop_first(),
            ws.drop_first(),
        );
        assert forall|k: int| 0 <= k < bs1.len() implies bs1[k] == bs2[k] by {
            if k > 0 {
                assert(bs1[k] == bs1.drop_first()[k - 1]);
                assert(bs2[k] == bs2.drop_first()[k - 1]);
            }
        }
        assert(bs1 =~= bs2);
    } else {
        let m1 = choose|m: BufRand<R1>|
            #[trigger] draw_step(pre1, m, bs1[0], Seq::<u64>::empty()) && draws(
                m,
                post1,
                bs1.drop_first(),
                ws,
            );
        let m2 = choose|m: BufRand<R2>|
            #[trigger] draw_step(pre2, m, bs2[0], Seq::<u64>::empty()) && draws(
                m,
                post2,
                bs2.drop_first(),
                ws,
            );
        lemma_draws_deterministic(
            m1,
            post1,
            m2,
            post2,
            bs1.drop_first(),
            bs2.drop_first(),
            ws,
        );
        assert forall|k: int| 0 <= k < bs1.len() implies bs1[k] == bs2[k] by {
            if k > 0 {
                assert(bs1[k] == bs1.drop_first()[k - 1]);
                assert(bs2[k] == bs2.drop_first()[k - 1]);
            }
        }
        assert(bs1 =~= bs2);
    }
}

/// A run of draws followed by one more draw is a run one draw longer, and
/// requests the words of both in order.
proof fn lemma_draws_push<R>(
    pre: BufRand<R>,
    mid: BufRand<R>,
    post: BufRand<R>,
    bs: Seq<bool>,
    b: bool,
    ws: Seq<u64>,
    ws1: Seq<u64>,
)
    requires
        draws(pre, mid, bs, ws),
        draw_step(mid, post, b, ws1),
    ensures
        draws(pre, post, bs.push(b), ws + ws1),
    decreases bs.len(),
{
    if bs.len() == 0 {
        assert(bs.push(b)[0] == b);
        assert(bs.push(b).drop_first() =~= Seq::<bool>::empty());
        if pre.needs_refill() {
            assert((ws + ws1).take(1) =~= ws1);
            assert((ws + ws1).drop_first() =~= Seq::<u64>::empty());
            assert(draw_step(pre, post, bs.push(b)[0], (ws + ws1).take(1)));
            assert(draws(post, post, bs.push(b).drop_first(), (ws + ws1).drop_first()));
        } else {
            assert(ws + ws1 =~= Seq::<u64>::empty());
            assert(draw_step(pre, post, bs.push(b)[0], Seq::<u64>::empty()));
            assert(draws(post, post, bs.push(b).drop_first(), ws + ws1));
        }
    } else {
        assert(bs.push(b)[0] == bs[0]);
        assert(bs.push(b).drop_first() =~= bs.drop_first().push(b));
        if pre.needs_refill() {
            let m = choose|m: BufRand<R>|
                #[trigger] draw_step(pre, m, bs[0], ws.take(1)) && draws(
                    m,
                    mid,
                    bs.drop_first(),
                    ws.drop_first(),
                );
            lemma_draws_push(m, mid, post, bs.drop_first(), b, ws.drop_first(), ws1);
            assert((ws + ws1).take(1) =~= ws.take(1));
            assert((ws + ws1).drop_first() =~= ws.drop_first() + ws1);
            assert(draw_step(pre, m, bs.push(b)[0], (ws + ws1).take(1)));
            assert(draws(m, post, bs.push(b).drop_first(), (ws + ws1).drop_first()));
        } else {
            let m = choose|m: BufRand<R>|
                #[trigger] draw_step(pre, m, bs[0], Seq::<u64>::empty()) && draws(
                    m,
                    mid,
                    bs.drop_first(),
                    ws,
                );
            lemma_draws_push(m, mid, post, bs.drop_first(), b, ws, ws1);
            assert(draw_step(pre, m, bs.push(b)[0], Seq::<u64>::empty()));
            assert(draws(m, post, bs.push(b).drop_first(), ws + ws1));
        }
    }
}

impl<R: RandomSource> BufRand<R> {
    /// A randomizer that draws its booleans from `rand`. The buffer starts in
    /// the never-filled state, so the very first draw always fetches a fresh
    /// word instead of reading the all-zero initial buffer.
    pub fn new(rand: R) -> (r: BufRand<R>)
        ensures
            r.buffer() == 0,
            r.consumed() == 0xff,
            r.needs_refill(),
            r.wf(),
            r.src() == rand,
    {
        BufRand { bit_buf: 0, shift_counter: 0xff, rand }
    }

    /// The next buffered random boolean: `true` exactly when the consumed bit
    /// is 0. Refills the buffer from the source first when no unconsumed bit
    /// remains, so each bit of a fetched word is consumed exactly once.
    pub fn next_bool(&mut self) -> (out: bool)
        ensures
            exists|ws: Seq<u64>| #[trigger] draw_step(*old(self), *final(self), out, ws),
            final(self).wf(),
    {
        let ghost pre = *self;
        let ghost mut drawn: Seq<u64> = Seq::empty();
        if self.shift_counter >= 64 {
            let w = self.rand.next_u64();
            self.bit_buf = w;
            self.shift_counter = 0;
            proof {
                drawn = seq![w];
            }
        }
        let out = self.bit_buf % 2 == 0;
        self.bit_buf = self.bit_buf >> 1;
        self.shift_counter = self.shift_counter + 1;
        proof {
            assert(draw_step(pre, *self, out, drawn));
        }
        out
    }

    /// Randomizes the letter case of one character: one boolean draw selects
    /// between the character's full uppercase mapping (on `true`) and its
    /// full lowercase mapping (on `false`). Either mapping may expand one
    /// character into several, so the result is a string; it always holds at
    /// least one character.
    pub fn rand_char_case(&mut self, c: &char) -> (r: String)
        ensures
            exists|b: bool, ws: Seq<u64>|
                #[trigger] draw_step(*old(self), *final(self), b, ws) && r@ == case_of(*c, b),
            r@.len() >= 1,
            final(self).wf(),
    {
        let ghost pre = *self;
        let up = self.next_bool();
        let r = if up {
            char_upper(*c)
        } else {
            char_lower(*c)
        };
        proof {
            let ws = choose|ws: Seq<u64>| draw_step(pre, *self, up, ws);
            assert(draw_step(pre, *self, up, ws) && r@ == case_of(*c, up));
        }
        r
    }

    /// Randomizes the letter case of every character of `s`: one independent
    /// boolean draw per character, in input order, each selecting that
    /// character's full uppercase or lowercase mapping; the mapped forms are
    /// concatenated in input order.
    pub fn rand_string_case(&mut self, s: &str) -> (r: String)
        ensures
            exists|bs: Seq<bool>, ws: Seq<u64>|
                #[trigger] draws(*old(self), *final(self), bs, ws) && bs.len() == s@.len() && r@
                    == cased(s@, bs),
            r@.len() >= s@.len(),
            old(self).wf() ==> final(self).wf(),
    {
        let ghost pre = *self;
        let n = s.unicode_len();
        let mut r = String::new();
        let ghost mut bs: Seq<bool> = Seq::empty();
        let ghost mut ws: Seq<u64> = Seq::empty();
        let mut i: usize = 0;
        while i < n
            invariant
                n == s@.len(),
                i <= n,
                bs.len() == i,
                draws(pre, *self, bs, ws),
                r@ == cased(s@.take(i as int), bs),
                r@.len() >= i,
                pre.wf() ==> self.wf(),
            decreases n - i,
        {
            let c = s.get_char(i);
            let ghost before = *self;
            let piece = self.rand_char_case(&c);
            r.append(piece.as_str());
            proof {
                let (b, ws1) = choose|b: bool, ws1: Seq<u64>|
                    #[trigger] draw_step(before, *self, b, ws1) && piece@ == case_of(c, b);
                lemma_draws_push(pre, before, *self, bs, b, ws, ws1);
                lemma_cased_push(s@.take(i as int), bs, c, b);
                assert(s@.take(i + 1) =~= s@.take(i as int).push(s@[i as int]));
                bs = bs.push(b);
                ws = ws + ws1;
            }
            i = i + 1;
        }
        proof {
            assert(s@.take(n as int) =~= s@);
            assert(draws(pre, *self, bs, ws) && bs.len() == s@.len() && r@ == cased(s@, bs));
        }
        r
    }
}

} // verus!
