//! Character-level text modeling: Unicode normalization, alphabet
//! construction, and a contextual character-frequency model.

use vstd::prelude::*;
use vstd::string::StrSliceExecFns;
use unicode_normalization::UnicodeNormalization;

verus! {

pub uninterp spec fn nfc_of(text: Seq<char>) -> Seq<char>;

/// First entry of a context table whose key equals `key`, from index `i` on.
pub open spec fn find_context_key(
    entries: Seq<(Vec<char>, Vec<(char, u32)>)>,
    key: Seq<char>,
    i: int,
) -> Option<int>
    decreases entries.len() - i,
{
    if i < 0 || i >= entries.len() {
        None
    } else if entries[i].0@ == key {
        Some(i)
    } else {
        find_context_key(entries, key, i + 1)
    }
}

/// The count recorded for a character in a count list: the first matching
/// entry, or zero when the character is absent.
pub open spec fn char_count(counts: Seq<(char, u32)>, ch: char) -> u32
    decreases counts.len(),
{
    if counts.len() == 0 {
        0u32
    } else if counts[0].0 == ch {
        counts[0].1
    } else {
        char_count(counts.drop_first(), ch)
    }
}

/// Contextual character-frequency model: per-context character counts with a
/// bounded context window.
pub struct TextModel {
    /// The current prediction context, at most `max_order` characters.
    pub context: Vec<char>,
    /// Upper bound on the context length.
    pub max_order: usize,
    /// Per-context character counts, keyed by the context string.
    pub char_freqs: Vec<(Vec<char>, Vec<(char, u32)>)>,
    /// Frequency assigned to the escape symbol.
    pub escape_freq: u32,
}

impl TextModel {
    /// A fresh model with an empty context and no recorded counts.
    pub fn new(max_order: usize) -> (m: TextModel)
        ensures
            m.context@.len() == 0,
            m.max_order == max_order,
            m.char_freqs@.len() == 0,
            m.escape_freq == 1,
    {
        TextModel { context: Vec::new(), max_order, char_freqs: Vec::new(), escape_freq: 1 }
    }

    /// Normalize text to Unicode NFC form.
    ///
    /// Relies on unicode-normalization's `nfc` and `is_nfc`: the NFC form of
    /// a string depends on its characters alone, normalization leaves an
    /// empty string empty, and a string already in NFC form is returned
    /// unchanged, which `is_nfc` reports.
    #[verifier::external_body]
    pub fn normalize_text(text: &str) -> (r: String)
        ensures
            r@ == nfc_of(text@),
            text@.len() == 0 ==> r@.len() == 0,
            nfc_of(r@) == r@,
            vstd::utf8::is_ascii_chars(text@) ==> r@ == text@,
    {
        if unicode_normalization::is_nfc(text) {
            text.to_string()
        } else {
            text.nfc().collect()
        }
    }

    /// Find the count table of the current context, if one exists.
    fn find_context(&self) -> (r: Option<usize>)
        ensures
            match r {
                Some(i) => i < self.char_freqs@.len() && self.char_freqs@[i as int].0@
                    == self.context@ && find_context_key(self.char_freqs@, self.context@, 0)
                    == Some(i as int),
                None => find_context_key(self.char_freqs@, self.context@, 0) is None,
            },
    {
        let mut i: usize = 0;
        let n = self.char_freqs.len();
        while i < n
            invariant
                i <= n,
                n == self.char_freqs@.len(),
                find_context_key(self.char_freqs@, self.context@, 0) == find_context_key(
                    self.char_freqs@,
                    self.context@,
                    i as int,
                ),
            decreases n - i,
        {
            if chars_equal(&self.char_freqs[i].0, &self.context) {
                return Some(i);
            }
            i = i + 1;
        }
        None
    }

    /// Record one character in the current context's count table, then slide
    /// the context window forward by that character.
    pub fn update(&mut self, ch: char)
        requires
            old(self).context@.len() <= old(self).max_order,
        ensures
            final(self).max_order == old(self).max_order,
            final(self).context@.len() <= final(self).max_order,
            final(self).context@ == if old(self).context@.len() < old(self).max_order {
                old(self).context@.push(ch)
            } else if old(self).max_order == 0 {
                old(self).context@
            } else {
                old(self).context@.push(ch).drop_first()
            },
    {
        let found = self.find_context();
        match found {
            Some(i) => {
                let (key, mut counts) = self.char_freqs.remove(i);
                bump_char_count(&mut counts, ch);
                self.char_freqs.push((key, counts));
            },
            None => {
                let key = clone_chars(&self.context);
                let mut counts: Vec<(char, u32)> = Vec::new();
                counts.push((ch, 1));
                self.char_freqs.push((key, counts));
            },
        }
        self.context.push(ch);
        if self.context.len() > self.max_order {
            self.context.remove(0);
            proof {
                assert(self.context@ =~= old(self).context@.push(ch).drop_first());
            }
        }
    }

    /// The frequency of each alphabet character in the current context,
    /// followed by the escape frequency.  An unseen context yields a uniform
    /// distribution.
    pub fn get_frequencies(&self, alphabet: &[char]) -> (freqs: Vec<u32>)
        ensures
            freqs@.len() == alphabet@.len() + 1,
            freqs@[alphabet@.len() as int] == self.escape_freq,
            match find_context_key(self.char_freqs@, self.context@, 0) {
                Some(idx) => forall|k: int|
                    0 <= k < alphabet@.len() ==> (#[trigger] freqs@[k]) == char_count(
                        self.char_freqs@[idx].1@,
                        alphabet@[k],
                    ),
                None => forall|k: int| 0 <= k < alphabet@.len() ==> (#[trigger] freqs@[k]) == 1,
            },
    {
        let mut freqs: Vec<u32> = Vec::new();
        let found = self.find_context();
        match found {
            Some(idx) => {
                let mut i: usize = 0;
                let n = alphabet.len();
                while i < n
                    invariant
                        i <= n,
                        n == alphabet@.len(),
                        freqs@.len() == i,
                        idx < self.char_freqs@.len(),
                        find_context_key(self.char_freqs@, self.context@, 0) == Some(
                            idx as int,
                        ),
                        forall|k: int|
                            0 <= k < i ==> (#[trigger] freqs@[k]) == char_count(
                                self.char_freqs@[idx as int].1@,
                                alphabet@[k],
                            ),
                    decreases n - i,
                {
                    freqs.push(lookup_char_count(&self.char_freqs[idx].1, alphabet[i]));
                    i = i + 1;
                }
            },
            None => {
                let mut i: usize = 0;
                let n = alphabet.len();
                while i < n
                    invariant
                        i <= n,
                        n == alphabet@.len(),
                        freqs@.len() == i,
                        find_context_key(self.char_freqs@, self.context@, 0) is None,
                        forall|k: int| 0 <= k < i ==> (#[trigger] freqs@[k]) == 1,
                    decreases n - i,
                {
                    freqs.push(1);
                    i = i + 1;
                }
            },
        }
        freqs.push(self.escape_freq);
        freqs
    }

    /// The index of a character in the alphabet, or `None` when absent.
    pub fn get_symbol_index(&self, ch: char, alphabet: &[char]) -> (r: Option<usize>)
        ensures
            match r {
                Some(i) => i < alphabet@.len() && alphabet@[i as int] == ch && forall|k: int|
                    0 <= k < i ==> alphabet@[k] != ch,
                None => forall|k: int| 0 <= k < alphabet@.len() ==> alphabet@[k] != ch,
            },
    {
        let mut i: usize = 0;
        let n = alphabet.len();
        while i < n
            invariant
                i <= n,
                n == alphabet@.len(),
                forall|k: int| 0 <= k < i ==> alphabet@[k] != ch,
            decreases n - i,
        {
            if alphabet[i] == ch {
                return Some(i);
            }
            i = i + 1;
        }
        None
    }

    /// Forget the current context.
    pub fn reset_context(&mut self)
        ensures
            final(self).context@.len() == 0,
            final(self).max_order == old(self).max_order,
            final(self).char_freqs@ == old(self).char_freqs@,
            final(self).escape_freq == old(self).escape_freq,
    {
        self.context.clear();
    }
}

/// Compare two character vectors element by element.
fn chars_equal(a: &Vec<char>, b: &Vec<char>) -> (r: bool)
    ensures
        r <==> a@ == b@,
{
    if a.len() != b.len() {
        proof {
            assert(a@ != b@);
        }
        return false;
    }
    let n = a.len();
    let mut i: usize = 0;
    while i < n
        invariant
            i <= n,
            n == a@.len() == b@.len(),
            forall|k: int| 0 <= k < i ==> a@[k] == b@[k],
        decreases n - i,
    {
        if a[i] != b[i] {
            return false;
        }
        i = i + 1;
    }
    proof {
        assert(a@ =~= b@);
    }
    true
}

/// Copy a character vector.
fn clone_chars(a: &Vec<char>) -> (r: Vec<char>)
    ensures
        r@ == a@,
{
    let mut r: Vec<char> = Vec::new();
    let n = a.len();
    let mut i: usize = 0;
    while i < n
        invariant
            i <= n,
            n == a@.len(),
            r@ == a@.take(i as int),
        decreases n - i,
    {
        r.push(a[i]);
        proof {
            assert(a@.take(i as int).push(a@[i as int]) =~= a@.take(i as int + 1));
        }
        i = i + 1;
    }
    proof {
        assert(a@.take(n as int) =~= a@);
    }
    r
}

/// Raise one character's count by one, adding the character when absent.
fn bump_char_count(counts: &mut Vec<(char, u32)>, ch: char)
    ensures
        final(counts)@.len() >= old(counts)@.len(),
{
    let n = counts.len();
    let mut i: usize = 0;
    while i < n
        invariant
            i <= n,
            n <= counts@.len(),
            counts@.len() == old(counts)@.len(),
        decreases n - i,
    {
        let (c, f) = counts[i];
        if c == ch {
            let bumped: u32 = if f == u32::MAX {
                f
            } else {
                f + 1
            };
            counts.set(i, (c, bumped));
            return ;
        }
        i = i + 1;
    }
    counts.push((ch, 1));
}

/// Look a character's count up, defaulting to zero.
fn lookup_char_count(counts: &Vec<(char, u32)>, ch: char) -> (r: u32)
    ensures
        r == char_count(counts@, ch),
{
    let n = counts.len();
    let mut i: usize = 0;
    proof {
        assert(counts@.skip(0) =~= counts@);
    }
    while i < n
        invariant
            i <= n,
            n == counts@.len(),
            char_count(counts@, ch) == char_count(counts@.skip(i as int), ch),
        decreases n - i,
    {
        proof {
            assert(counts@.skip(i as int).drop_first() =~= counts@.skip(i as int + 1));
            assert(counts@.skip(i as int)[0] == counts@[i as int]);
        }
        let (c, f) = counts[i];
        if c == ch {
            return f;
        }
        i = i + 1;
    }
    0
}

/// The distinct characters of a text, in ascending order.
pub fn build_alphabet(text: &str) -> (alphabet: Vec<char>)
    ensures
        forall|i: int, j: int| 0 <= i < j < alphabet@.len() ==> alphabet@[i] < alphabet@[j],
        forall|i: int| 0 <= i < alphabet@.len() ==> text@.contains(#[trigger] alphabet@[i]),
        forall|k: int| 0 <= k < text@.len() ==> alphabet@.contains(#[trigger] text@[k]),
{
    let mut alphabet: Vec<char> = Vec::new();
    let n = text.unicode_len();
    let mut i: usize = 0;
    while i < n
        invariant
            i <= n,
            n == text@.len(),
            forall|a: int, b: int| 0 <= a < b < alphabet@.len() ==> alphabet@[a] < alphabet@[b],
            forall|a: int| 0 <= a < alphabet@.len() ==> text@.contains(#[trigger] alphabet@[a]),
            forall|k: int| 0 <= k < i ==> alphabet@.contains(#[trigger] text@[k]),
        decreases n - i,
    {
        let c = text.get_char(i);
        let ghost pre = alphabet@;
        insert_sorted(&mut alphabet, c);
        proof {
            assert(text@.contains(text@[i as int]));
            assert forall|a: int| 0 <= a < alphabet@.len() implies text@.contains(
                #[trigger] alphabet@[a],
            ) by {
                let x = alphabet@[a];
                assert(alphabet@.contains(x));
                if pre.contains(x) {
                    let w = choose|w: int| 0 <= w < pre.len() && pre[w] == x;
                    assert(text@.contains(pre[w]));
                } else {
                    assert(x == c);
                }
            }
        }
        i = i + 1;
    }
    alphabet
}

/// Insert a character into a sorted vector of distinct characters, keeping it
/// sorted and distinct; an already-present character is left alone.
fn insert_sorted(alphabet: &mut Vec<char>, c: char)
    requires
        forall|a: int, b: int|
            0 <= a < b < old(alphabet)@.len() ==> old(alphabet)@[a] < old(alphabet)@[b],
    ensures
        forall|a: int, b: int|
            0 <= a < b < final(alphabet)@.len() ==> final(alphabet)@[a] < final(alphabet)@[b],
        final(alphabet)@.contains(c),
        forall|x: char|
            final(alphabet)@.contains(x) <==> (old(alphabet)@.contains(x) || x == c),
{
    let n = alphabet.len();
    let mut i: usize = 0;
    while i < n && alphabet[i] < c
        invariant
            i <= n,
            n == alphabet@.len(),
            alphabet@ == old(alphabet)@,
            forall|k: int| 0 <= k < i ==> alphabet@[k] < c,
        decreases n - i,
    {
        i = i + 1;
    }
    if i < n && alphabet[i] == c {
        proof {
            assert(alphabet@[i as int] == c);
        }
        return ;
    }
    let ghost pre = alphabet@;
    alphabet.insert(i, c);
    proof {
        assert(alphabet@ =~= pre.take(i as int).push(c) + pre.skip(i as int));
        assert(alphabet@[i as int] == c);
        assert forall|x: char| alphabet@.contains(x) <==> (pre.contains(x) || x == c) by {
            if alphabet@.contains(x) {
                let w = choose|w: int| 0 <= w < alphabet@.len() && alphabet@[w] == x;
                if w < i {
                    assert(pre[w] == x);
                } else if w > i {
                    assert(pre[w - 1] == x);
                }
            }
            if pre.contains(x) {
                let w = choose|w: int| 0 <= w < pre.len() && pre[w] == x;
                if w < i {
                    assert(alphabet@[w] == x);
                } else {
                    assert(alphabet@[w + 1] == x);
                }
            }
        }
    }
}

} // verus!
