use crate::params::DicewareParams;
use crate::passphrase::{
    DicewarePassword, ExtraCharacter, SPECIAL_CHAR_COUNT, Wordlist, extra_valid,
};
use crate::rng::{
    coin_next, coin_result, draw_coin, draw_in_range, draw_next, draw_result, rng_from_seed,
    rng_state, seeded_state,
};
use vstd::prelude::*;

verus! {

/// Seed for generating random passwords.
///
/// This matches the type returned by a hardware challenge-response exchange:
/// an opaque 160-bit value, totally ordered as a big-endian unsigned integer.
pub type Seed = [u8; 20];

/// The value of a byte string read as a big-endian unsigned integer.
pub open spec fn be_val(s: Seq<u8>) -> int
    decreases s.len(),
{
    if s.len() == 0 {
        0
    } else {
        be_val(s.drop_last()) * 256 + s.last()
    }
}

/// 256 to the power `n`: the number of byte strings of length `n`.
pub open spec fn pow256(n: nat) -> int
    decreases n,
{
    if n == 0 {
        1
    } else {
        256 * pow256((n - 1) as nat)
    }
}

/// The successor of a byte string under the big-endian counter order:
/// increment the last byte, carrying into earlier bytes, and wrap the
/// all-maximal string around to all zeroes.
pub open spec fn succ_be(s: Seq<u8>) -> Seq<u8>
    decreases s.len(),
{
    if s.len() == 0 {
        s
    } else if s.last() == 255 {
        succ_be(s.drop_last()).push(0)
    } else {
        s.drop_last().push((s.last() + 1) as u8)
    }
}

/// The successor of a byte string has the same length: the counter
/// stays within its fixed-width space.
pub proof fn lemma_succ_be_len(s: Seq<u8>)
    ensures
        succ_be(s).len() == s.len(),
    decreases s.len(),
{
    if s.len() > 0 && s.last() == 255 {
        lemma_succ_be_len(s.drop_last());
    }
}

/// Peeling trailing maximal bytes: if every byte from `i` on is 255, the
/// successor is the successor of the prefix, padded with zeroes.
proof fn lemma_succ_be_trailing(s: Seq<u8>, i: int)
    requires
        0 <= i <= s.len(),
        forall|k: int| i <= k < s.len() ==> s[k] == 255,
    ensures
        succ_be(s) =~= succ_be(s.take(i)) + Seq::new((s.len() - i) as nat, |_k: int| 0u8),
    decreases s.len() - i,
{
    if i == s.len() {
        assert(s.take(i) =~= s);
    } else {
        assert(s.last() == 255);
        assert(s.drop_last().take(i) =~= s.take(i));
        lemma_succ_be_trailing(s.drop_last(), i);
        lemma_succ_be_len(s.take(i));
    }
}

/// Change a seed value to return the value that's greater by one.
pub fn advance(seed: &mut Seed)
    ensures
        final(seed)@ == succ_be(old(seed)@),
{
    let mut i: usize = 20;
    while i > 0 && seed[i - 1] == 255
        invariant
            i <= 20,
            forall|k: int| 0 <= k < i ==> seed@[k] == old(seed)@[k],
            forall|k: int| i <= k < 20 ==> seed@[k] == 0 && old(seed)@[k] == 255,
        decreases i,
    {
        seed[i - 1] = 0;
        i -= 1;
    }
    proof {
        lemma_succ_be_trailing(old(seed)@, i as int);
    }
    if i > 0 {
        let b = seed[i - 1];
        seed[i - 1] = b + 1;
        proof {
            assert(old(seed)@.take(i as int).drop_last() =~= old(seed)@.take(i as int - 1));
            assert(succ_be(old(seed)@.take(i as int)) =~= old(seed)@.take(i as int - 1).push(
                (old(seed)@[i as int - 1] + 1) as u8,
            ));
            assert(seed@ =~= succ_be(old(seed)@));
        }
    } else {
        proof {
            assert(old(seed)@.take(0) =~= Seq::<u8>::empty());
            assert(seed@ =~= succ_be(old(seed)@));
        }
    }
}

/// Advancing a seed is increment by one in the cyclic counter over all
/// byte strings of its length: the value wraps to zero past the maximum,
/// so applying it once per value walks the whole space and returns.
pub proof fn lemma_succ_be_is_increment(s: Seq<u8>)
    ensures
        be_val(succ_be(s)) == (be_val(s) + 1) % pow256(s.len()),
    decreases s.len(),
{
    lemma_pow256_pos(s.len());
    if s.len() == 0 {
    } else if s.last() == 255 {
        lemma_succ_be_is_increment(s.drop_last());
        lemma_pow256_pos((s.len() - 1) as nat);
        let d = s.drop_last();
        let m = pow256(d.len());
        let a = be_val(d) + 1;
        let sd = succ_be(d);
        assert(succ_be(s).drop_last() =~= sd);
        assert(succ_be(s).last() == 0);
        assert(be_val(succ_be(s)) == be_val(sd) * 256);
        assert(be_val(sd) == a % m);
        vstd::arithmetic::div_mod::lemma_fundamental_div_mod(a, m);
        let q = a / m;
        let r = a % m;
        vstd::arithmetic::div_mod::lemma_mod_bound(a, m);
        assert(a * 256 == q * (m * 256) + r * 256) by (nonlinear_arith)
            requires
                a == q * m + r,
        ;
        assert(0 <= r * 256 < m * 256) by (nonlinear_arith)
            requires
                0 <= r < m,
        ;
        vstd::arithmetic::div_mod::lemma_fundamental_div_mod_converse(
            a * 256,
            m * 256,
            q,
            r * 256,
        );
        assert(be_val(s) + 1 == a * 256) by {
            assert(be_val(s) == be_val(d) * 256 + 255);
        };
        assert(pow256(s.len()) == m * 256) by {
            assert(pow256(s.len()) == 256 * pow256((s.len() - 1) as nat));
        };
    } else {
        let d = s.drop_last();
        lemma_be_val_bound(d);
        assert(succ_be(s).drop_last() =~= d);
        assert(succ_be(s).last() == s.last() + 1);
        assert(be_val(succ_be(s)) == be_val(d) * 256 + s.last() + 1);
        assert(be_val(succ_be(s)) == be_val(s) + 1);
        lemma_pow256_pos((s.len() - 1) as nat);
        let m1 = pow256((s.len() - 1) as nat);
        assert(be_val(d) * 256 + 256 <= m1 * 256) by (nonlinear_arith)
            requires
                be_val(d) < m1,
        ;
        assert(pow256(s.len()) == 256 * m1);
        vstd::arithmetic::div_mod::lemma_small_mod(
            (be_val(s) + 1) as nat,
            pow256(s.len()) as nat,
        );
        lemma_be_val_bound(s);
    }
}

/// Powers of 256 are positive.
pub proof fn lemma_pow256_pos(n: nat)
    ensures
        pow256(n) >= 1,
    decreases n,
{
    if n > 0 {
        lemma_pow256_pos((n - 1) as nat);
    }
}

/// A byte string of length `n` denotes a value below 256^n.
pub proof fn lemma_be_val_bound(s: Seq<u8>)
    ensures
        0 <= be_val(s) < pow256(s.len()),
    decreases s.len(),
{
    if s.len() > 0 {
        let d = s.drop_last();
        lemma_be_val_bound(d);
        let m = pow256(d.len());
        assert(be_val(d) * 256 + 255 < m * 256) by (nonlinear_arith)
            requires
                0 <= be_val(d) < m,
        ;
        assert(be_val(d) * 256 >= 0) by (nonlinear_arith)
            requires
                be_val(d) >= 0,
        ;
    }
}

/// Byte strings of one length denote distinct values: together with the
/// increment lemma, advancing steps through all 256^n strings in one
/// cycle and only then returns to its start.
pub proof fn lemma_be_val_injective(a: Seq<u8>, b: Seq<u8>)
    requires
        a.len() == b.len(),
        be_val(a) == be_val(b),
    ensures
        a == b,
    decreases a.len(),
{
    if a.len() > 0 {
        let ad = a.drop_last();
        let bd = b.drop_last();
        assert(be_val(ad) == be_val(bd) && a.last() == b.last()) by (nonlinear_arith)
            requires
                be_val(ad) * 256 + a.last() == be_val(bd) * 256 + b.last(),
                0 <= a.last() < 256,
                0 <= b.last() < 256,
        ;
        lemma_be_val_injective(ad, bd);
        assert forall|i: int| 0 <= i < a.len() implies a[i] == b[i] by {
            if i < a.len() - 1 {
                assert(a[i] == ad[i]);
                assert(b[i] == bd[i]);
            } else {
                assert(a[i] == a.last());
                assert(b[i] == b.last());
            }
        }
        assert(a =~= b);
    } else {
        assert(a =~= b);
    }
}

/// The fixed 12-byte constant that is prefixed to a seed when it is
/// expanded into a 32-byte keystream key.
pub open spec fn expand_prefix() -> Seq<u8> {
    Seq::new(12, |_i: int| 46u8)
}

/// The 32-byte keystream key an expanded seed consists of: the fixed
/// prefix followed by the 20 seed bytes.
pub open spec fn expanded(seed: Seq<u8>) -> Seq<u8> {
    expand_prefix() + seed
}

/// Expand a 20-byte seed into a 32-byte seed by prepending a constant.
/// The 32-byte seed can then be used to key the keystream generator.
fn expand_seed(s: &Seed) -> (key: [u8; 32])
    ensures
        key@ == expanded(s@),
{
    let mut key = [0u8; 32];
    let mut i: usize = 0;
    while i < 12
        invariant
            i <= 12,
            key@.len() == 32,
            forall|k: int| 0 <= k < i ==> key@[k] == 46u8,
        decreases 12 - i,
    {
        key[i] = 46;
        i += 1;
    }
    let mut j: usize = 0;
    while j < 20
        invariant
            j <= 20,
            key@.len() == 32,
            forall|k: int| 0 <= k < 12 ==> key@[k] == 46u8,
            forall|k: int| 0 <= k < j ==> key@[12 + k] == s@[k],
        decreases 20 - j,
    {
        key[12 + j] = s[j];
        j += 1;
    }
    proof {
        assert(key@ =~= expanded(s@));
    }
    key
}

/// The word indices that `n` successive dictionary draws yield from
/// state `st`, in draw order, together with the state left behind.
pub open spec fn word_draws(st: int, n: nat, dict_len: int) -> (Seq<usize>, int)
    decreases n,
{
    if n == 0 {
        (Seq::empty(), st)
    } else {
        let (prefix, stp) = word_draws(st, (n - 1) as nat, dict_len);
        (prefix.push(draw_result(stp, 0, dict_len - 1) as usize), draw_next(stp, 0, dict_len - 1))
    }
}

/// One extra-character draw from state `st`: a position over `[0, n]`,
/// a coin for the variant, then either a symbol index or a word
/// reference with an offset bounded by that word's character count.
pub open spec fn extra_draw(st: int, words: Seq<usize>, wl: Seq<Seq<char>>) -> (
    ExtraCharacter,
    int,
) {
    let n = words.len() as int;
    let position = draw_result(st, 0, n) as usize;
    let st1 = draw_next(st, 0, n);
    let st2 = coin_next(st1);
    if coin_result(st1) {
        (
            ExtraCharacter::Special {
                which: draw_result(st2, 0, SPECIAL_CHAR_COUNT as int - 1) as usize,
                position,
            },
            draw_next(st2, 0, SPECIAL_CHAR_COUNT as int - 1),
        )
    } else {
        let from_word = draw_result(st2, 0, n - 1) as usize;
        let st3 = draw_next(st2, 0, n - 1);
        let wlen = wl[words[from_word as int] as int].len() as int;
        (
            ExtraCharacter::Indexed {
                from_word,
                inside_word: draw_result(st3, 0, wlen - 1) as usize,
                position,
            },
            draw_next(st3, 0, wlen - 1),
        )
    }
}

/// The extras that `n` successive extra-character draws yield.
pub open spec fn extras_draws(st: int, n: nat, words: Seq<usize>, wl: Seq<Seq<char>>) -> (
    Seq<ExtraCharacter>,
    int,
)
    decreases n,
{
    if n == 0 {
        (Seq::empty(), st)
    } else {
        let (prefix, stp) = extras_draws(st, (n - 1) as nat, words, wl);
        let (e, stn) = extra_draw(stp, words, wl);
        (prefix.push(e), stn)
    }
}

/// The passphrase the sampler yields from keystream state `st` under the
/// given parameters and dictionary: a word count from the word range,
/// that many word indices, an extras count from the extras range, and
/// that many extra characters, in this fixed draw order.
pub open spec fn sample_spec(st: int, params: DicewareParams, wl: Seq<Seq<char>>) -> (
    Seq<usize>,
    Seq<ExtraCharacter>,
) {
    let nw = draw_result(st, params.words.low as int, params.words.high as int);
    let st1 = draw_next(st, params.words.low as int, params.words.high as int);
    let (ws, st2) = word_draws(st1, nw as nat, wl.len() as int);
    let ne = draw_result(st2, params.extras.low as int, params.extras.high as int);
    let st3 = draw_next(st2, params.extras.low as int, params.extras.high as int);
    let (es, _st4) = extras_draws(st3, ne as nat, ws, wl);
    (ws, es)
}

/// The first index at or after `i` where the two sequences differ, or
/// the length when they agree everywhere from `i` on.
pub open spec fn first_diff_from(a: Seq<usize>, b: Seq<usize>, i: int) -> int
    decreases a.len() - i,
{
    if i < 0 || i >= a.len() {
        a.len() as int
    } else if a[i] != b[i] {
        i
    } else {
        first_diff_from(a, b, i + 1)
    }
}

/// The first index where the two sequences differ, or the length when
/// they agree everywhere.
pub open spec fn first_diff(a: Seq<usize>, b: Seq<usize>) -> int {
    first_diff_from(a, b, 0)
}

#[derive(Clone, Copy, Debug, PartialEq, Eq, Structural)]
pub enum CheckPasswordError {
    WrongLength { expected: usize, got: usize },
    WrongWord { at_idx: usize, expected: usize, got: usize },
    Unknown,
}

/// The outcome of checking a candidate passphrase against the draws of
/// keystream state `st`: a length mismatch as soon as the word count
/// differs, a word mismatch at the first differing word index, a bare
/// mismatch when only the extras differ, and success otherwise.
pub open spec fn check_spec(
    st: int,
    params: DicewareParams,
    wl: Seq<Seq<char>>,
    words: Seq<usize>,
    extras: Seq<ExtraCharacter>,
) -> Result<(), CheckPasswordError> {
    let nw = draw_result(st, params.words.low as int, params.words.high as int);
    let st1 = draw_next(st, params.words.low as int, params.words.high as int);
    if nw as nat != words.len() {
        Err(CheckPasswordError::WrongLength { expected: words.len() as usize, got: nw as usize })
    } else {
        let (ws, st2) = word_draws(st1, nw as nat, wl.len() as int);
        let d = first_diff(words, ws);
        if d < words.len() as int {
            Err(
                CheckPasswordError::WrongWord {
                    at_idx: d as usize,
                    expected: words[d],
                    got: ws[d],
                },
            )
        } else {
            let ne = draw_result(st2, params.extras.low as int, params.extras.high as int);
            let st3 = draw_next(st2, params.extras.low as int, params.extras.high as int);
            let (es, _st4) = extras_draws(st3, ne as nat, ws, wl);
            if extras == es {
                Ok(())
            } else {
                Err(CheckPasswordError::Unknown)
            }
        }
    }
}

proof fn lemma_word_draws_len(st: int, n: nat, dict_len: int)
    ensures
        word_draws(st, n, dict_len).0.len() == n,
    decreases n,
{
    if n > 0 {
        lemma_word_draws_len(st, (n - 1) as nat, dict_len);
    }
}

/// The first `k` of `n` word draws are the same draws: a shorter run is
/// a prefix of a longer one, state chain included.
proof fn lemma_word_draws_prefix(st: int, n: nat, k: nat, dict_len: int)
    requires
        k <= n,
    ensures
        word_draws(st, n, dict_len).0.take(k as int) == word_draws(st, k, dict_len).0,
    decreases n,
{
    lemma_word_draws_len(st, n, dict_len);
    lemma_word_draws_len(st, k, dict_len);
    if n > k {
        lemma_word_draws_prefix(st, (n - 1) as nat, k, dict_len);
        lemma_word_draws_len(st, (n - 1) as nat, dict_len);
        assert(word_draws(st, n, dict_len).0.take(k as int) =~= word_draws(
            st,
            (n - 1) as nat,
            dict_len,
        ).0.take(k as int));
    } else {
        assert(word_draws(st, n, dict_len).0.take(k as int) =~= word_draws(st, n, dict_len).0);
    }
}

proof fn lemma_first_diff_from_at(a: Seq<usize>, b: Seq<usize>, i: int, k: int)
    requires
        0 <= i <= k <= a.len(),
        forall|j: int| i <= j < k ==> a[j] == b[j],
        k < a.len() ==> a[k] != b[k],
    ensures
        first_diff_from(a, b, i) == if k < a.len() {
            k
        } else {
            a.len() as int
        },
    decreases k - i,
{
    if i < k {
        lemma_first_diff_from_at(a, b, i + 1, k);
    }
}

/// `first_diff` finds exactly the first mismatch: if the sequences agree
/// before `k` and differ at `k`, it is `k`; if they agree everywhere, it
/// is the length.
proof fn lemma_first_diff_at(a: Seq<usize>, b: Seq<usize>, k: int)
    requires
        0 <= k <= a.len(),
        forall|j: int| 0 <= j < k ==> a[j] == b[j],
        k < a.len() ==> a[k] != b[k],
    ensures
        first_diff(a, b) == if k < a.len() {
            k
        } else {
            a.len() as int
        },
{
    lemma_first_diff_from_at(a, b, 0, k);
}

/// The preconditions generation and checking share: well-formed
/// parameter ranges, a non-empty dictionary of non-empty words, and at
/// least one word whenever an extra can be drawn (an `Indexed` extra
/// must have a word to point at).
pub open spec fn sampling_pre(params: DicewareParams, wordlist: &Wordlist) -> bool {
    &&& params.wf()
    &&& wordlist.wf()
    &&& wordlist@.len() > 0
    &&& (params.extras.high > 0 ==> params.words.low > 0)
}

/// Use the given seed and parameters to generate a passphrase.
#[verifier::loop_isolation(false)]
pub fn generate_pw(s: &Seed, params: &DicewareParams, wordlist: &Wordlist) -> (pw:
    DicewarePassword)
    requires
        sampling_pre(*params, wordlist),
    ensures
        (pw.words@, pw.extras@) == sample_spec(seeded_state(expanded(s@)), *params, wordlist@),
        params.words.low <= pw.words@.len() <= params.words.high,
        params.extras.low <= pw.extras@.len() <= params.extras.high,
        pw.renderable(wordlist@),
{
    let ghost wlv = wordlist@;
    let key = expand_seed(s);
    let mut rng = rng_from_seed(key);
    let ghost st0 = seeded_state(expanded(s@));
    let ghost wlo = params.words.low as int;
    let ghost whi = params.words.high as int;
    let ghost dl = wlv.len() as int;

    let words = draw_in_range(&mut rng, params.words.low, params.words.high);
    let ghost st1 = draw_next(st0, wlo, whi);

    let dict_len = wordlist.len();
    let mut word_items: Vec<usize> = Vec::new();
    let mut k: usize = 0;
    while k < words
        invariant
            k <= words,
            rng_state(rng) == word_draws(st1, k as nat, dl).1,
            word_items@ == word_draws(st1, k as nat, dl).0,
            word_items@.len() == k,
            forall|t: int| 0 <= t < k ==> (word_items@[t] as int) < dl,
        decreases words - k,
    {
        let ghost stk = word_draws(st1, k as nat, dl).1;
        let w = draw_in_range(&mut rng, 0, dict_len - 1);
        word_items.push(w);
        proof {
            assert(word_draws(st1, (k + 1) as nat, dl).0 == word_draws(st1, k as nat, dl).0.push(
                draw_result(stk, 0, dl - 1) as usize,
            ));
            assert(w == draw_result(stk, 0, dl - 1) as usize);
        }
        k += 1;
    }
    let ghost st2 = word_draws(st1, words as nat, dl).1;

    let extras = draw_in_range(&mut rng, params.extras.low, params.extras.high);
    let ghost st3 = draw_next(st2, params.extras.low as int, params.extras.high as int);
    let mut extra_items: Vec<ExtraCharacter> = Vec::new();
    let mut x: usize = 0;
    while x < extras
        invariant
            x <= extras,
            rng_state(rng) == extras_draws(st3, x as nat, word_items@, wlv).1,
            extra_items@ == extras_draws(st3, x as nat, word_items@, wlv).0,
            extra_items@.len() == x,
            forall|t: int|
                0 <= t < x ==> extra_valid(#[trigger] extra_items@[t], word_items@, wlv),
        decreases extras - x,
    {
        proof {
            assert(words >= 1);
        }
        let ghost stx = extras_draws(st3, x as nat, word_items@, wlv).1;
        let position = draw_in_range(&mut rng, 0, words);
        let is_special = draw_coin(&mut rng);
        let extra: ExtraCharacter;
        if is_special {
            let which = draw_in_range(&mut rng, 0, SPECIAL_CHAR_COUNT - 1);
            extra = ExtraCharacter::Special { which, position };
        } else {
            let word_idx = draw_in_range(&mut rng, 0, words - 1);
            let word_id = word_items[word_idx];
            let word_text = wordlist.word(word_id);
            let word_len = word_text.as_str().unicode_len();
            let inside_word = draw_in_range(&mut rng, 0, word_len - 1);
            extra = ExtraCharacter::Indexed { from_word: word_idx, inside_word, position };
        }
        extra_items.push(extra);
        proof {
            assert(extra == extra_draw(stx, word_items@, wlv).0);
            assert(rng_state(rng) == extra_draw(stx, word_items@, wlv).1);
            assert(extras_draws(st3, (x + 1) as nat, word_items@, wlv).0 == extras_draws(
                st3,
                x as nat,
                word_items@,
                wlv,
            ).0.push(extra_draw(stx, word_items@, wlv).0));
        }
        x += 1;
    }

    let pw = DicewarePassword { words: word_items, extras: extra_items };
    proof {
        assert(pw.words@ == sample_spec(st0, *params, wlv).0);
        assert(pw.extras@ == sample_spec(st0, *params, wlv).1);
    }
    pw
}

/// Use the given seed, parameters, and passphrase to check if this seed generates the same
/// passphrase.
/// Stop early if a critical parameter doesn't match.
#[verifier::loop_isolation(false)]
pub fn check_pw(
    s: &Seed,
    params: &DicewareParams,
    pw: &DicewarePassword,
    wordlist: &Wordlist,
) -> (r: Result<(), CheckPasswordError>)
    requires
        sampling_pre(*params, wordlist),
    ensures
        r == check_spec(seeded_state(expanded(s@)), *params, wordlist@, pw.words@, pw.extras@),
        r is Ok <==> (pw.words@, pw.extras@) == sample_spec(
            seeded_state(expanded(s@)),
            *params,
            wordlist@,
        ),
{
    let ghost wlv = wordlist@;
    let key = expand_seed(s);
    let mut rng = rng_from_seed(key);
    let ghost st0 = seeded_state(expanded(s@));
    let ghost wlo = params.words.low as int;
    let ghost whi = params.words.high as int;
    let ghost dl = wlv.len() as int;

    let words = draw_in_range(&mut rng, params.words.low, params.words.high);
    let ghost st1 = draw_next(st0, wlo, whi);
    let ghost nw = draw_result(st0, wlo, whi);
    let ghost ws = word_draws(st1, nw as nat, dl).0;
    proof {
        lemma_word_draws_len(st1, nw as nat, dl);
    }
    if words != pw.words.len() {
        return Err(CheckPasswordError::WrongLength { expected: pw.words.len(), got: words });
    }

    let dict_len = wordlist.len();
    let mut word_items: Vec<usize> = Vec::new();
    let mut k: usize = 0;
    while k < words
        invariant
            k <= words,
            rng_state(rng) == word_draws(st1, k as nat, dl).1,
            word_items@ == word_draws(st1, k as nat, dl).0,
            word_items@.len() == k,
            forall|t: int| 0 <= t < k ==> (word_items@[t] as int) < dl,
            forall|t: int| 0 <= t < k ==> word_items@[t] == pw.words@[t],
        decreases words - k,
    {
        let ghost stk = word_draws(st1, k as nat, dl).1;
        let w = draw_in_range(&mut rng, 0, dict_len - 1);
        proof {
            assert(word_draws(st1, (k + 1) as nat, dl).0 == word_draws(st1, k as nat, dl).0.push(
                draw_result(stk, 0, dl - 1) as usize,
            ));
            assert(w == draw_result(stk, 0, dl - 1) as usize);
            lemma_word_draws_prefix(st1, nw as nat, (k + 1) as nat, dl);
            lemma_word_draws_len(st1, (k + 1) as nat, dl);
            assert(ws[k as int] == word_draws(st1, (k + 1) as nat, dl).0[k as int]);
            assert(ws[k as int] == w);
        }
        if w != pw.words[k] {
            proof {
                assert forall|j: int| 0 <= j < k implies pw.words@[j] == ws[j] by {
                    assert(ws.take((k + 1) as int) == word_draws(st1, (k + 1) as nat, dl).0);
                    assert(ws[j] == ws.take((k + 1) as int)[j]);
                    assert(word_draws(st1, (k + 1) as nat, dl).0[j] == word_items@[j]);
                }
                lemma_first_diff_at(pw.words@, ws, k as int);
            }
            return Err(
                CheckPasswordError::WrongWord { at_idx: k, expected: pw.words[k], got: w },
            );
        }
        word_items.push(w);
        k += 1;
    }
    proof {
        assert(word_items@ =~= pw.words@);
        assert(word_items@ == ws);
        lemma_first_diff_at(pw.words@, ws, words as int);
    }
    let ghost st2 = word_draws(st1, words as nat, dl).1;

    let extras = draw_in_range(&mut rng, params.extras.low, params.extras.high);
    let ghost st3 = draw_next(st2, params.extras.low as int, params.extras.high as int);
    let mut extra_items: Vec<ExtraCharacter> = Vec::new();
    let mut x: usize = 0;
    while x < extras
        invariant
            x <= extras,
            rng_state(rng) == extras_draws(st3, x as nat, word_items@, wlv).1,
            extra_items@ == extras_draws(st3, x as nat, word_items@, wlv).0,
            extra_items@.len() == x,
        decreases extras - x,
    {
        proof {
            assert(words >= 1);
        }
        let ghost stx = extras_draws(st3, x as nat, word_items@, wlv).1;
        let position = draw_in_range(&mut rng, 0, words);
        let is_special = draw_coin(&mut rng);
        let extra: ExtraCharacter;
        if is_special {
            let which = draw_in_range(&mut rng, 0, SPECIAL_CHAR_COUNT - 1);
            extra = ExtraCharacter::Special { which, position };
        } else {
            let word_idx = draw_in_range(&mut rng, 0, words - 1);
            let word_id = word_items[word_idx];
            let word_text = wordlist.word(word_id);
            let word_len = word_text.as_str().unicode_len();
            let inside_word = draw_in_range(&mut rng, 0, word_len - 1);
            extra = ExtraCharacter::Indexed { from_word: word_idx, inside_word, position };
        }
        extra_items.push(extra);
        proof {
            assert(extra == extra_draw(stx, word_items@, wlv).0);
            assert(rng_state(rng) == extra_draw(stx, word_items@, wlv).1);
            assert(extras_draws(st3, (x + 1) as nat, word_items@, wlv).0 == extras_draws(
                st3,
                x as nat,
                word_items@,
                wlv,
            ).0.push(extra_draw(stx, word_items@, wlv).0));
        }
        x += 1;
    }

    let candidate = DicewarePassword { words: word_items, extras: extra_items };
    if candidate == *pw {
        Ok(())
    } else {
        Err(CheckPasswordError::Unknown)
    }
}

/// Determinism: sampling depends on nothing but the seed, the
/// parameters and the dictionary, so equal seeds describe equal
/// passphrases, drawn twice or on different machines.
pub proof fn lemma_sample_deterministic(
    s1: Seq<u8>,
    s2: Seq<u8>,
    params: DicewareParams,
    wl: Seq<Seq<char>>,
)
    requires
        s1 == s2,
    ensures
        sample_spec(seeded_state(expanded(s1)), params, wl) == sample_spec(
            seeded_state(expanded(s2)),
            params,
            wl,
        ),
{
}

/// Round trip: the passphrase sampled from a state is accepted when
/// checked against the same state, parameters and dictionary.
pub proof fn lemma_check_roundtrip(st: int, params: DicewareParams, wl: Seq<Seq<char>>)
    ensures
        check_spec(st, params, wl, sample_spec(st, params, wl).0, sample_spec(st, params, wl).1)
            is Ok,
{
    let wlo = params.words.low as int;
    let whi = params.words.high as int;
    let nw = draw_result(st, wlo, whi);
    let st1 = draw_next(st, wlo, whi);
    lemma_word_draws_len(st1, nw as nat, wl.len() as int);
    let ws = word_draws(st1, nw as nat, wl.len() as int).0;
    lemma_first_diff_at(ws, ws, ws.len() as int);
}

/// Short circuit: a candidate whose word count agrees but whose first
/// differing word stands at index `k` is rejected with a word mismatch
/// that names exactly `k`, the candidate's word and the drawn word.
pub proof fn lemma_check_short_circuit(
    st: int,
    params: DicewareParams,
    wl: Seq<Seq<char>>,
    words: Seq<usize>,
    extras: Seq<ExtraCharacter>,
    k: int,
)
    requires
        words.len() == sample_spec(st, params, wl).0.len(),
        0 <= k < words.len(),
        words[k] != sample_spec(st, params, wl).0[k],
        forall|j: int| 0 <= j < k ==> words[j] == sample_spec(st, params, wl).0[j],
    ensures
        check_spec(st, params, wl, words, extras) == Err::<(), CheckPasswordError>(
            CheckPasswordError::WrongWord {
                at_idx: k as usize,
                expected: words[k],
                got: sample_spec(st, params, wl).0[k],
            },
        ),
{
    let wlo = params.words.low as int;
    let whi = params.words.high as int;
    let nw = draw_result(st, wlo, whi);
    let st1 = draw_next(st, wlo, whi);
    lemma_word_draws_len(st1, nw as nat, wl.len() as int);
    let ws = word_draws(st1, nw as nat, wl.len() as int).0;
    lemma_first_diff_at(words, ws, k);
}

} // verus!
