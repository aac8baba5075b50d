use vstd::prelude::*;

verus! {

/// The table of "special" symbol characters an extra character may be
/// drawn from, in its fixed order.
pub open spec fn special_chars() -> Seq<char> {
    Seq::new(36, |i: int| special_char_at(i))
}

/// The symbol that stands at the given index of the table.
pub open spec fn special_char_at(i: int) -> char {
    if i == 0 { '~' }
    else if i == 1 { '!' }
    else if i == 2 { '#' }
    else if i == 3 { '$' }
    else if i == 4 { '%' }
    else if i == 5 { '^' }
    else if i == 6 { '&' }
    else if i == 7 { '*' }
    else if i == 8 { '(' }
    else if i == 9 { ')' }
    else if i == 10 { '-' }
    else if i == 11 { '=' }
    else if i == 12 { '+' }
    else if i == 13 { '[' }
    else if i == 14 { ']' }
    else if i == 15 { '\\' }
    else if i == 16 { '{' }
    else if i == 17 { '}' }
    else if i == 18 { ':' }
    else if i == 19 { ';' }
    else if i == 20 { '"' }
    else if i == 21 { '\'' }
    else if i == 22 { '<' }
    else if i == 23 { '>' }
    else if i == 24 { '?' }
    else if i == 25 { '/' }
    else if i == 26 { '0' }
    else if i == 27 { '1' }
    else if i == 28 { '2' }
    else if i == 29 { '3' }
    else if i == 30 { '4' }
    else if i == 31 { '5' }
    else if i == 32 { '6' }
    else if i == 33 { '7' }
    else if i == 34 { '8' }
    else { '9' }
}

/// The number of entries of `special_chars`.
pub const SPECIAL_CHAR_COUNT: usize = 36;

/// The symbol table as an executable value, in the order of `special_chars`.
pub fn special_char_table() -> (v: Vec<char>)
    ensures
        v@ == special_chars(),
{
    let mut v: Vec<char> = Vec::new();
    v.push('~');
    proof {
        assert(v@ =~= special_chars().take(1));
    }
    v.push('!');
    proof {
        assert(v@ =~= special_chars().take(2));
    }
    v.push('#');
    proof {
        assert(v@ =~= special_chars().take(3));
    }
    v.push('$');
    proof {
        assert(v@ =~= special_chars().take(4));
    }
    v.push('%');
    proof {
        assert(v@ =~= special_chars().take(5));
    }
    v.push('^');
    proof {
        assert(v@ =~= special_chars().take(6));
    }
    v.push('&');
    proof {
        assert(v@ =~= special_chars().take(7));
    }
    v.push('*');
    proof {
        assert(v@ =~= special_chars().take(8));
    }
    v.push('(');
    proof {
        assert(v@ =~= special_chars().take(9));
    }
    v.push(')');
    proof {
        assert(v@ =~= special_chars().take(10));
    }
    v.push('-');
    proof {
        assert(v@ =~= special_chars().take(11));
    }
    v.push('=');
    proof {
        assert(v@ =~= special_chars().take(12));
    }
    v.push('+');
    proof {
        assert(v@ =~= special_chars().take(13));
    }
    v.push('[');
    proof {
        assert(v@ =~= special_chars().take(14));
    }
    v.push(']');
    proof {
        assert(v@ =~= special_chars().take(15));
    }
    v.push('\\');
    proof {
        assert(v@ =~= special_chars().take(16));
    }
    v.push('{');
    proof {
        assert(v@ =~= special_chars().take(17));
    }
    v.push('}');
    proof {
        assert(v@ =~= special_chars().take(18));
    }
    v.push(':');
    proof {
        assert(v@ =~= special_chars().take(19));
    }
    v.push(';');
    proof {
        assert(v@ =~= special_chars().take(20));
    }
    v.push('"');
    proof {
        assert(v@ =~= special_chars().take(21));
    }
    v.push('\'');
    proof {
        assert(v@ =~= special_chars().take(22));
    }
    v.push('<');
    proof {
        assert(v@ =~= special_chars().take(23));
    }
    v.push('>');
    proof {
        assert(v@ =~= special_chars().take(24));
    }
    v.push('?');
    proof {
        assert(v@ =~= special_chars().take(25));
    }
    v.push('/');
    proof {
        assert(v@ =~= special_chars().take(26));
    }
    v.push('0');
    proof {
        assert(v@ =~= special_chars().take(27));
    }
    v.push('1');
    proof {
        assert(v@ =~= special_chars().take(28));
    }
    v.push('2');
    proof {
        assert(v@ =~= special_chars().take(29));
    }
    v.push('3');
    proof {
        assert(v@ =~= special_chars().take(30));
    }
    v.push('4');
    proof {
        assert(v@ =~= special_chars().take(31));
    }
    v.push('5');
    proof {
        assert(v@ =~= special_chars().take(32));
    }
    v.push('6');
    proof {
        assert(v@ =~= special_chars().take(33));
    }
    v.push('7');
    proof {
        assert(v@ =~= special_chars().take(34));
    }
    v.push('8');
    proof {
        assert(v@ =~= special_chars().take(35));
    }
    v.push('9');
    proof {
        assert(v@ =~= special_chars().take(36));
    }
    proof {
        assert(v@ =~= special_chars());
    }
    v
}

/// The dictionary the passphrase words are drawn from: a fixed ordered
/// list of non-empty words, supplied by the caller at startup.
pub struct Wordlist {
    words: Vec<String>,
}

impl View for Wordlist {
    type V = Seq<Seq<char>>;

    closed spec fn view(&self) -> Seq<Seq<char>> {
        Seq::new(self.words@.len(), |i: int| self.words@[i]@)
    }
}

impl Wordlist {
    /// Every word of a well-formed dictionary has at least one character,
    /// so an offset into a word can always be reduced modulo its length.
    pub open spec fn wf(&self) -> bool {
        forall|i: int| 0 <= i < self@.len() ==> self@[i].len() > 0
    }

    /// Builds a dictionary from the given words; refuses a list that
    /// contains an empty word.
    pub fn new(words: Vec<String>) -> (r: Option<Wordlist>)
        ensures
            r is Some <==> (forall|i: int| 0 <= i < words@.len() ==> words@[i]@.len() > 0),
            r is Some ==> {
                let wl = r->Some_0;
                &&& wl@.len() == words@.len()
                &&& forall|i: int| 0 <= i < words@.len() ==> wl@[i] == words@[i]@
                &&& wl.wf()
            },
    {
        let mut i: usize = 0;
        while i < words.len()
            invariant
                i <= words@.len(),
                forall|j: int| 0 <= j < i ==> words@[j]@.len() > 0,
            decreases words@.len() - i,
        {
            if words[i].as_str().is_empty() {
                return None;
            }
            i += 1;
        }
        let wl = Wordlist { words };
        Some(wl)
    }

    /// The number of words in the dictionary.
    pub fn len(&self) -> (n: usize)
        ensures
            n == self@.len(),
    {
        self.words.len()
    }

    /// The text of the word at the given dictionary index.
    pub fn word(&self, i: usize) -> (w: &String)
        requires
            i < self@.len(),
        ensures
            w@ == self@[i as int],
    {
        &self.words[i]
    }
}

/// Represents a special symbol added to the password.
/// In this rule, one or more special symbols can be placed
/// in every word gap, and is separated from the words by a space on both sides.
#[derive(Clone, Copy, Debug, PartialEq, Eq, Structural)]
pub enum ExtraCharacter {
    /// The extra character comes from a table of special characters.
    Special {
        /// The index of the character in the table
        which: usize,
        /// The position of the character in the password.
        /// If zero, is before the first word;
        /// if one, after the first word.
        /// If greater than the number of words, after the last word.
        position: usize,
    },
    /// The extra character comes from one of the words in the passphrase.
    Indexed {
        /// Index of passphrase word to use, zero-based, modulo the length of the passphrase.
        from_word: usize,
        /// Index of the letter to use inside the picked word, zero-based and modulo the length of
        /// the word.
        inside_word: usize,
        /// The position of the character in the password.
        /// If zero, is before the first word;
        /// if one, after the first word.
        /// If greater than the number of words, after the last word.
        position: usize,
    },
}

/// Module for representing Diceware passwords in a low-entropy form.
#[derive(Debug)]
pub struct DicewarePassword {
    /// Wordlist indices, in order
    pub words: Vec<usize>,

    /// Special characters added to the phrase
    pub extras: Vec<ExtraCharacter>,
}

/// Whether every word index of a passphrase points into the dictionary.
pub open spec fn words_in_dict(words: Seq<usize>, wl: Seq<Seq<char>>) -> bool {
    forall|i: int| 0 <= i < words.len() ==> (words[i] as int) < wl.len()
}

/// The character an extra resolves to. A `Special` extra is a fixed symbol;
/// an `Indexed` extra is re-resolved against the current word sequence every
/// time: the referenced word is taken modulo the word count, and the offset
/// modulo that word's character count.
pub open spec fn char_of(e: ExtraCharacter, words: Seq<usize>, wl: Seq<Seq<char>>) -> char {
    match e {
        ExtraCharacter::Special { which, .. } => special_chars()[which as int],
        ExtraCharacter::Indexed { from_word, inside_word, .. } => {
            let word_id = words[from_word as int % words.len() as int];
            let text = wl[word_id as int];
            text[inside_word as int % text.len() as int]
        },
    }
}

/// The inputs on which an extra resolves to a character without failing:
/// a `Special` extra must point into the symbol table, and an `Indexed`
/// extra needs at least one word, all of them in the dictionary.
pub open spec fn extra_valid(e: ExtraCharacter, words: Seq<usize>, wl: Seq<Seq<char>>) -> bool {
    match e {
        ExtraCharacter::Special { which, .. } => which < SPECIAL_CHAR_COUNT,
        ExtraCharacter::Indexed { .. } => words.len() > 0 && words_in_dict(words, wl),
    }
}

impl ExtraCharacter {
    /// The placement slot of the extra, whichever variant it is.
    pub open spec fn spec_position(self) -> usize {
        match self {
            ExtraCharacter::Special { position, .. } => position,
            ExtraCharacter::Indexed { position, .. } => position,
        }
    }

    pub fn position(&self) -> (p: usize)
        ensures
            p == self.spec_position(),
    {
        match self {
            ExtraCharacter::Special { position, .. } => *position,
            ExtraCharacter::Indexed { position, .. } => *position,
        }
    }

    pub fn get_char(&self, phrase: &DicewarePassword, wordlist: &Wordlist) -> (c: char)
        requires
            wordlist.wf(),
            extra_valid(*self, phrase.words@, wordlist@),
        ensures
            c == char_of(*self, phrase.words@, wordlist@),
    {
        match self {
            ExtraCharacter::Special { which, .. } => {
                let table = special_char_table();
                proof {
                    assert(special_chars().len() == 36);
                }
                table[*which]
            },
            ExtraCharacter::Indexed { from_word, inside_word, .. } => {
                let word_id = phrase.words[*from_word % phrase.words.len()];
                let word_text = wordlist.word(word_id);
                let count = word_text.as_str().unicode_len();
                word_text.as_str().get_char(*inside_word % count)
            },
        }
    }
}

impl PartialEq for DicewarePassword {
    /// Equality is structural: the same word sequence and the same extras
    /// sequence, in the same order.
    fn eq(&self, other: &Self) -> (r: bool) {
        if self.words.len() != other.words.len() || self.extras.len() != other.extras.len() {
            return false;
        }
        let mut i: usize = 0;
        while i < self.words.len()
            invariant
                i <= self.words@.len(),
                self.words@.len() == other.words@.len(),
                self.extras@.len() == other.extras@.len(),
                forall|j: int| 0 <= j < i ==> self.words@[j] == other.words@[j],
            decreases self.words@.len() - i,
        {
            if self.words[i] != other.words[i] {
                return false;
            }
            i += 1;
        }
        let mut k: usize = 0;
        while k < self.extras.len()
            invariant
                k <= self.extras@.len(),
                self.words@.len() == other.words@.len(),
                self.extras@.len() == other.extras@.len(),
                forall|j: int| 0 <= j < self.words@.len() ==> self.words@[j] == other.words@[j],
                forall|j: int| 0 <= j < k ==> self.extras@[j] == other.extras@[j],
            decreases self.extras@.len() - k,
        {
            if self.extras[k] != other.extras[k] {
                return false;
            }
            k += 1;
        }
        proof {
            assert(self.words@ =~= other.words@);
            assert(self.extras@ =~= other.extras@);
        }
        true
    }
}

impl vstd::std_specs::cmp::PartialEqSpecImpl for DicewarePassword {
    open spec fn obeys_eq_spec() -> bool {
        true
    }

    open spec fn eq_spec(&self, other: &Self) -> bool {
        self.words@ == other.words@ && self.extras@ == other.extras@
    }
}

/// Relies on `String::push`: appends the given character to the end of
/// the string.
#[verifier::external_body]
fn push_char(s: &mut String, c: char)
    ensures
        final(s)@ == old(s)@.push(c),
{
    s.push(c);
}

/// The characters of the extras whose position equals `k`, in their
/// original sequence order, glued together with nothing in between.
pub open spec fn bucket_chars(
    extras: Seq<ExtraCharacter>,
    words: Seq<usize>,
    wl: Seq<Seq<char>>,
    k: int,
) -> Seq<char>
    decreases extras.len(),
{
    if extras.len() == 0 {
        Seq::empty()
    } else {
        bucket_chars(extras.drop_last(), words, wl, k) + (
        if extras.last().spec_position() as int == k {
            seq![char_of(extras.last(), words, wl)]
        } else {
            Seq::<char>::empty()
        })
    }
}

/// The characters of the extras whose position exceeds the word count:
/// the tail bucket, rendered after everything else.
pub open spec fn late_chars(
    extras: Seq<ExtraCharacter>,
    words: Seq<usize>,
    wl: Seq<Seq<char>>,
    n: int,
) -> Seq<char>
    decreases extras.len(),
{
    if extras.len() == 0 {
        Seq::empty()
    } else {
        late_chars(extras.drop_last(), words, wl, n) + (
        if extras.last().spec_position() as int > n {
            seq![char_of(extras.last(), words, wl)]
        } else {
            Seq::<char>::empty()
        })
    }
}

/// Whether some extra sits at or past the last word, so that the last
/// word needs a separating space after it.
pub open spec fn has_late_extra(extras: Seq<ExtraCharacter>, n: int) -> bool {
    exists|i: int| 0 <= i < extras.len() && extras[i].spec_position() as int >= n
}

/// The text contributed by the word at index `i`: its dictionary text, a
/// space when it is not the last word (or when a late extra needs the
/// separator), then the extras of bucket `i + 1`, closed by one more
/// space when that bucket rendered anything and more words follow.
pub open spec fn word_chunk(
    words: Seq<usize>,
    extras: Seq<ExtraCharacter>,
    wl: Seq<Seq<char>>,
    i: int,
) -> Seq<char> {
    let n = words.len() as int;
    let sep = if i == n - 1 {
        if has_late_extra(extras, n) {
            seq![' ']
        } else {
            Seq::<char>::empty()
        }
    } else {
        seq![' ']
    };
    let bucket = bucket_chars(extras, words, wl, i + 1);
    let close = if i != n - 1 && bucket.len() > 0 {
        seq![' ']
    } else {
        Seq::<char>::empty()
    };
    wl[words[i] as int] + sep + bucket + close
}

/// The concatenation of the chunks of the first `upto` words.
pub open spec fn words_part(
    words: Seq<usize>,
    extras: Seq<ExtraCharacter>,
    wl: Seq<Seq<char>>,
    upto: int,
) -> Seq<char>
    decreases upto,
{
    if upto <= 0 {
        Seq::empty()
    } else {
        words_part(words, extras, wl, upto - 1) + word_chunk(words, extras, wl, upto - 1)
    }
}

/// The canonical text of a passphrase: the bucket before the first word
/// (followed by a space when non-empty), every word with its bucket, and
/// the tail bucket, with one space on each side of a bucket that rendered
/// anything and no space within a bucket.
pub open spec fn render_spec(
    words: Seq<usize>,
    extras: Seq<ExtraCharacter>,
    wl: Seq<Seq<char>>,
) -> Seq<char> {
    let n = words.len() as int;
    let lead = bucket_chars(extras, words, wl, 0);
    let lead_sep = if lead.len() > 0 {
        seq![' ']
    } else {
        Seq::<char>::empty()
    };
    lead + lead_sep + words_part(words, extras, wl, n) + late_chars(extras, words, wl, n)
}

/// Appending one more extra to a bucket appends its character exactly
/// when its position matches the bucket.
proof fn lemma_bucket_chars_step(
    extras: Seq<ExtraCharacter>,
    words: Seq<usize>,
    wl: Seq<Seq<char>>,
    k: int,
    j: int,
)
    requires
        0 <= j < extras.len(),
    ensures
        bucket_chars(extras.take(j + 1), words, wl, k) == bucket_chars(
            extras.take(j),
            words,
            wl,
            k,
        ) + (if extras[j].spec_position() as int == k {
            seq![char_of(extras[j], words, wl)]
        } else {
            Seq::<char>::empty()
        }),
{
    assert(extras.take(j + 1).drop_last() =~= extras.take(j));
    assert(extras.take(j + 1).last() == extras[j]);
}

proof fn lemma_late_chars_step(
    extras: Seq<ExtraCharacter>,
    words: Seq<usize>,
    wl: Seq<Seq<char>>,
    n: int,
    j: int,
)
    requires
        0 <= j < extras.len(),
    ensures
        late_chars(extras.take(j + 1), words, wl, n) == late_chars(extras.take(j), words, wl, n)
            + (if extras[j].spec_position() as int > n {
            seq![char_of(extras[j], words, wl)]
        } else {
            Seq::<char>::empty()
        }),
{
    assert(extras.take(j + 1).drop_last() =~= extras.take(j));
    assert(extras.take(j + 1).last() == extras[j]);
}


/// Appends the characters of bucket `k` to `out`; reports whether the
/// bucket rendered anything.
#[verifier::loop_isolation(false)]
fn append_bucket(
    out: &mut String,
    phrase: &DicewarePassword,
    wordlist: &Wordlist,
    k: usize,
) -> (any: bool)
    requires
        wordlist.wf(),
        phrase.renderable(wordlist@),
    ensures
        final(out)@ == old(out)@ + bucket_chars(
            phrase.extras@,
            phrase.words@,
            wordlist@,
            k as int,
        ),
        any == (bucket_chars(phrase.extras@, phrase.words@, wordlist@, k as int).len() > 0),
{
    let ghost extrasv = phrase.extras@;
    let ghost wordsv = phrase.words@;
    let ghost wlv = wordlist@;
    let ghost base = out@;
    let m = phrase.extras.len();
    let mut any = false;
    let mut j: usize = 0;
    proof {
        assert(out@ =~= base + bucket_chars(extrasv.take(0), wordsv, wlv, k as int));
    }
    while j < m
        invariant
            j <= m,
            out@ == base + bucket_chars(extrasv.take(j as int), wordsv, wlv, k as int),
            any == (bucket_chars(extrasv.take(j as int), wordsv, wlv, k as int).len() > 0),
        decreases m - j,
    {
        let e = phrase.extras[j];
        proof {
            lemma_bucket_chars_step(extrasv, wordsv, wlv, k as int, j as int);
        }
        if e.position() == k {
            let c = e.get_char(phrase, wordlist);
            push_char(out, c);
            any = true;
        }
        proof {
            assert(out@ =~= base + bucket_chars(extrasv.take(j as int + 1), wordsv, wlv, k as int));
        }
        j += 1;
    }
    proof {
        assert(extrasv.take(m as int) =~= extrasv);
    }
    any
}

/// Appends the tail bucket: the extras whose position exceeds `n`.
#[verifier::loop_isolation(false)]
fn append_late(out: &mut String, phrase: &DicewarePassword, wordlist: &Wordlist, n: usize)
    requires
        wordlist.wf(),
        phrase.renderable(wordlist@),
    ensures
        final(out)@ == old(out)@ + late_chars(phrase.extras@, phrase.words@, wordlist@, n as int),
{
    let ghost extrasv = phrase.extras@;
    let ghost wordsv = phrase.words@;
    let ghost wlv = wordlist@;
    let ghost base = out@;
    let m = phrase.extras.len();
    let mut j: usize = 0;
    proof {
        assert(out@ =~= base + late_chars(extrasv.take(0), wordsv, wlv, n as int));
    }
    while j < m
        invariant
            j <= m,
            out@ == base + late_chars(extrasv.take(j as int), wordsv, wlv, n as int),
        decreases m - j,
    {
        let e = phrase.extras[j];
        proof {
            lemma_late_chars_step(extrasv, wordsv, wlv, n as int, j as int);
        }
        if e.position() > n {
            let c = e.get_char(phrase, wordlist);
            push_char(out, c);
        }
        proof {
            assert(out@ =~= base + late_chars(extrasv.take(j as int + 1), wordsv, wlv, n as int));
        }
        j += 1;
    }
    proof {
        assert(extrasv.take(m as int) =~= extrasv);
    }
}

/// Whether any extra sits at or past position `n`.
#[verifier::loop_isolation(false)]
fn any_late_extra(phrase: &DicewarePassword, n: usize) -> (late: bool)
    ensures
        late == has_late_extra(phrase.extras@, n as int),
{
    let ghost extrasv = phrase.extras@;
    let m = phrase.extras.len();
    let mut late = false;
    let mut j: usize = 0;
    while j < m
        invariant
            j <= m,
            late == (exists|t: int| 0 <= t < j && extrasv[t].spec_position() as int >= n as int),
        decreases m - j,
    {
        if phrase.extras[j].position() >= n {
            late = true;
        }
        j += 1;
    }
    late
}

impl DicewarePassword {
    /// The inputs on which the passphrase renders without failing: every
    /// word index in the dictionary, every extra resolvable.
    pub open spec fn renderable(&self, wl: Seq<Seq<char>>) -> bool {
        &&& words_in_dict(self.words@, wl)
        &&& forall|i: int|
            0 <= i < self.extras@.len() ==> extra_valid(
                #[trigger] self.extras@[i],
                self.words@,
                wl,
            )
    }

    /// The canonical textual rendering of the passphrase against the
    /// given dictionary.
    #[verifier::loop_isolation(false)]
    #[verifier::rlimit(60)]
    pub fn render(&self, wordlist: &Wordlist) -> (s: String)
        requires
            wordlist.wf(),
            self.renderable(wordlist@),
        ensures
            s@ == render_spec(self.words@, self.extras@, wordlist@),
    {
        let ghost wordsv = self.words@;
        let ghost extrasv = self.extras@;
        let ghost wlv = wordlist@;
        let n = self.words.len();
        let mut out = String::new();

        // The bucket before the first word.
        let any_lead = append_bucket(&mut out, self, wordlist, 0);
        if any_lead {
            push_char(&mut out, ' ');
        }
        let ghost lead_full = out@;
        proof {
            let lead = bucket_chars(extrasv, wordsv, wlv, 0);
            let lead_sep: Seq<char> = if lead.len() > 0 {
                seq![' ']
            } else {
                Seq::<char>::empty()
            };
            assert(lead_full =~= lead + lead_sep);
        }

        // Whether a separating space is owed after the last word.
        let late = any_late_extra(self, n);

        // Each word, followed by its bucket.
        let mut i: usize = 0;
        proof {
            assert(out@ =~= lead_full + words_part(wordsv, extrasv, wlv, 0));
        }
        while i < n
            invariant
                i <= n,
                out@ == lead_full + words_part(wordsv, extrasv, wlv, i as int),
            decreases n - i,
        {
            let word_id = self.words[i];
            let word_text = wordlist.word(word_id);
            out.append(word_text.as_str());
            let space_after_word = if i == n - 1 {
                // If last word, then space after it is before late extras
                late
            } else {
                true
            };
            if space_after_word {
                push_char(&mut out, ' ');
            }
            let any_bucket = append_bucket(&mut out, self, wordlist, i + 1);
            let space_after_extras = i != n - 1;  // only put space after extras if
            // it's not the last word
            if any_bucket && space_after_extras {
                push_char(&mut out, ' ');
            }
            proof {
                assert(words_part(wordsv, extrasv, wlv, i as int + 1) == words_part(
                    wordsv,
                    extrasv,
                    wlv,
                    i as int,
                ) + word_chunk(wordsv, extrasv, wlv, i as int));
                assert(out@ =~= lead_full + words_part(wordsv, extrasv, wlv, i as int + 1));
            }
            i += 1;
        }

        // The tail bucket, with nothing after it.
        append_late(&mut out, self, wordlist, n);
        proof {
            assert(out@ =~= render_spec(wordsv, extrasv, wlv));
        }
        out
    }
}

} // verus!
