use vstd::prelude::*;

verus! {

/// The Unicode `White_Space` code points; the separator set used by the
/// tokenizer and everything built on top of it.
pub open spec fn spec_is_space(c: char) -> bool {
    let u = c as u32;
    ||| u == 0x20
    ||| (0x09 <= u && u <= 0x0D)
    ||| u == 0x85
    ||| u == 0xA0
    ||| u == 0x1680
    ||| (0x2000 <= u && u <= 0x200A)
    ||| u == 0x2028
    ||| u == 0x2029
    ||| u == 0x202F
    ||| u == 0x205F
    ||| u == 0x3000
}

pub fn is_space(c: char) -> (r: bool)
    ensures
        r == spec_is_space(c),
{
    let u = c as u32;
    u == 0x20 || (0x09 <= u && u <= 0x0D) || u == 0x85 || u == 0xA0 || u == 0x1680 || (0x2000 <= u
        && u <= 0x200A) || u == 0x2028 || u == 0x2029 || u == 0x202F || u == 0x205F || u == 0x3000
}

/// Position of the first whitespace character at or after `i`, or `s.len()`.
pub open spec fn find_space(s: Seq<char>, i: int) -> int
    decreases s.len() - i
        when 0 <= i <= s.len()
{
    if i >= s.len() {
        s.len() as int
    } else if spec_is_space(s[i]) {
        i
    } else {
        find_space(s, i + 1)
    }
}

/// Position of the first non-whitespace character at or after `i`, or `s.len()`.
pub open spec fn find_non_space(s: Seq<char>, i: int) -> int
    decreases s.len() - i
        when 0 <= i <= s.len()
{
    if i >= s.len() {
        s.len() as int
    } else if !spec_is_space(s[i]) {
        i
    } else {
        find_non_space(s, i + 1)
    }
}

/// Position of the last non-whitespace character strictly before `i`, or `-1`.
pub open spec fn last_non_space_before(s: Seq<char>, i: int) -> int
    decreases i
        when 0 <= i <= s.len()
{
    if i <= 0 {
        -1
    } else if !spec_is_space(s[i - 1]) {
        i - 1
    } else {
        last_non_space_before(s, i - 1)
    }
}

/// Position of the last whitespace character strictly before `i`, or `-1`.
pub open spec fn last_space_before(s: Seq<char>, i: int) -> int
    decreases i
        when 0 <= i <= s.len()
{
    if i <= 0 {
        -1
    } else if spec_is_space(s[i - 1]) {
        i - 1
    } else {
        last_space_before(s, i - 1)
    }
}

pub broadcast proof fn lemma_find_space(s: Seq<char>, i: int)
    requires
        0 <= i <= s.len(),
    ensures
        i <= #[trigger] find_space(s, i) <= s.len(),
        forall|j: int| i <= j < find_space(s, i) ==> !spec_is_space(s[j]),
        find_space(s, i) < s.len() ==> spec_is_space(s[find_space(s, i)]),
    decreases s.len() - i,
{
    if i < s.len() && !spec_is_space(s[i]) {
        lemma_find_space(s, i + 1);
    }
}

pub broadcast proof fn lemma_find_non_space(s: Seq<char>, i: int)
    requires
        0 <= i <= s.len(),
    ensures
        i <= #[trigger] find_non_space(s, i) <= s.len(),
        forall|j: int| i <= j < find_non_space(s, i) ==> spec_is_space(s[j]),
        find_non_space(s, i) < s.len() ==> !spec_is_space(s[find_non_space(s, i)]),
    decreases s.len() - i,
{
    if i < s.len() && spec_is_space(s[i]) {
        lemma_find_non_space(s, i + 1);
    }
}

pub broadcast proof fn lemma_last_non_space_before(s: Seq<char>, i: int)
    requires
        0 <= i <= s.len(),
    ensures
        -1 <= #[trigger] last_non_space_before(s, i) < i,
        forall|j: int| last_non_space_before(s, i) < j < i ==> spec_is_space(s[j]),
        last_non_space_before(s, i) >= 0 ==> !spec_is_space(s[last_non_space_before(s, i)]),
    decreases i,
{
    if i > 0 && spec_is_space(s[i - 1]) {
        lemma_last_non_space_before(s, i - 1);
    }
}

pub broadcast proof fn lemma_last_space_before(s: Seq<char>, i: int)
    requires
        0 <= i <= s.len(),
    ensures
        -1 <= #[trigger] last_space_before(s, i) < i,
        forall|j: int| last_space_before(s, i) < j < i ==> !spec_is_space(s[j]),
        last_space_before(s, i) >= 0 ==> spec_is_space(s[last_space_before(s, i)]),
    decreases i,
{
    if i > 0 && !spec_is_space(s[i - 1]) {
        lemma_last_space_before(s, i - 1);
    }
}

/// End (exclusive) of the token starting at `i`.
pub open spec fn tok_end(s: Seq<char>, i: int) -> int {
    find_space(s, i)
}

/// Start of the token following the one starting at `i`, or `s.len()`.
pub open spec fn tok_next(s: Seq<char>, i: int) -> int {
    find_non_space(s, tok_end(s, i))
}

/// The token starting at position `i`.
pub open spec fn tok_at(s: Seq<char>, i: int) -> Seq<char> {
    s.subrange(i, tok_end(s, i))
}

/// Where `rewind` moves a tokenizer positioned at `i`: the start of the token
/// whose last character is the last non-whitespace character before `i`, or
/// `i` itself if only whitespace precedes it.
pub open spec fn prev_token_start(s: Seq<char>, i: int) -> int {
    let e = last_non_space_before(s, i);
    if e == -1 {
        i
    } else {
        last_space_before(s, e) + 1
    }
}

fn find_space_exec(s: &str, from: usize) -> (r: usize)
    requires
        from <= s@.len(),
    ensures
        r == find_space(s@, from as int),
{
    broadcast use lemma_find_space;

    let len = s.unicode_len();
    let mut i: usize = from;
    while i < len
        invariant
            from <= i <= len,
            len == s@.len(),
            find_space(s@, from as int) == find_space(s@, i as int),
        decreases len - i,
    {
        if is_space(s.get_char(i)) {
            return i;
        }
        i = i + 1;
    }
    i
}

fn find_non_space_exec(s: &str, from: usize) -> (r: usize)
    requires
        from <= s@.len(),
    ensures
        r == find_non_space(s@, from as int),
{
    broadcast use lemma_find_non_space;

    let len = s.unicode_len();
    let mut i: usize = from;
    while i < len
        invariant
            from <= i <= len,
            len == s@.len(),
            find_non_space(s@, from as int) == find_non_space(s@, i as int),
        decreases len - i,
    {
        if !is_space(s.get_char(i)) {
            return i;
        }
        i = i + 1;
    }
    i
}

fn last_non_space_before_exec(s: &str, from: usize) -> (r: Option<usize>)
    requires
        from <= s@.len(),
    ensures
        match r {
            Some(j) => j == last_non_space_before(s@, from as int),
            None => last_non_space_before(s@, from as int) == -1,
        },
{
    let mut i: usize = from;
    while i > 0
        invariant
            i <= from <= s@.len(),
            last_non_space_before(s@, from as int) == last_non_space_before(s@, i as int),
        decreases i,
    {
        if !is_space(s.get_char(i - 1)) {
            return Some(i - 1);
        }
        i = i - 1;
    }
    None
}

fn last_space_before_exec(s: &str, from: usize) -> (r: Option<usize>)
    requires
        from <= s@.len(),
    ensures
        match r {
            Some(j) => j == last_space_before(s@, from as int),
            None => last_space_before(s@, from as int) == -1,
        },
{
    let mut i: usize = from;
    while i > 0
        invariant
            i <= from <= s@.len(),
            last_space_before(s@, from as int) == last_space_before(s@, i as int),
        decreases i,
    {
        if is_space(s.get_char(i - 1)) {
            return Some(i - 1);
        }
        i = i - 1;
    }
    None
}

/// Splits a string into whitespace-delimited tokens while keeping the raw
/// remainder available, and supports rewinding by one token.
pub struct SplitWhitespaceWithRest<'a> {
    string: &'a str,
    // Invariant: char index of the first character of the next token, or of
    // the first character after the string.
    start_idx: usize,
}

impl<'a> SplitWhitespaceWithRest<'a> {
    /// The whole input, as a sequence of characters.
    pub closed spec fn text(&self) -> Seq<char> {
        self.string@
    }

    /// The current position, a char index into `text()`.
    pub closed spec fn pos(&self) -> int {
        self.start_idx as int
    }

    pub open spec fn wf(&self) -> bool {
        0 <= self.pos() <= self.text().len()
    }

    pub fn new(string: &'a str) -> (r: Self)
        ensures
            r.wf(),
            r.text() == string@,
            r.pos() == find_non_space(string@, 0),
    {
        proof {
            broadcast use lemma_find_non_space;

        }
        let start_idx = find_non_space_exec(string, 0);
        SplitWhitespaceWithRest { string, start_idx }
    }

    /// Returns the next token, advancing past it and the whitespace that
    /// follows it, or `None` when the input is exhausted.
    pub fn next(&mut self) -> (r: Option<&'a str>)
        requires
            old(self).wf(),
        ensures
            final(self).wf(),
            final(self).text() == old(self).text(),
            old(self).pos() == old(self).text().len() ==> r is None && final(self).pos() == old(
                self,
            ).pos(),
            old(self).pos() < old(self).text().len() ==> {
                &&& r matches Some(t) && t@ == tok_at(old(self).text(), old(self).pos())
                &&& final(self).pos() == tok_next(old(self).text(), old(self).pos())
            },
    {
        proof {
            broadcast use lemma_find_space, lemma_find_non_space;

        }
        let len = self.string.unicode_len();
        if self.start_idx == len {
            return None;
        }
        let end_idx = find_space_exec(self.string, self.start_idx);
        let piece = self.string.substring_char(self.start_idx, end_idx);
        self.start_idx = find_non_space_exec(self.string, end_idx);
        Some(piece)
    }

    /// Returns the remainder from the current position to the end of the
    /// string, whitespace included, without consuming anything.
    pub fn rest(&self) -> (r: Option<&'a str>)
        requires
            self.wf(),
        ensures
            self.pos() == self.text().len() ==> r is None,
            self.pos() < self.text().len() ==> ({
                &&& r matches Some(t)
                &&& t@ == self.text().subrange(self.pos(), self.text().len() as int)
            }),
    {
        let len = self.string.unicode_len();
        if self.start_idx == len {
            None
        } else {
            Some(self.string.substring_char(self.start_idx, len))
        }
    }

    /// Rewinds the tokenizer, so that the next call to `next()` will return the
    /// same token again. The exception is the case where the previous call to
    /// `next()` returned `None`: in that case, the next call will return the
    /// last token of the string.
    pub fn rewind(&mut self)
        requires
            old(self).wf(),
        ensures
            final(self).wf(),
            final(self).text() == old(self).text(),
            final(self).pos() == prev_token_start(old(self).text(), old(self).pos()),
    {
        proof {
            broadcast use lemma_last_non_space_before, lemma_last_space_before;

        }
        match last_non_space_before_exec(self.string, self.start_idx) {
            None => {},
            Some(e) => {
                match last_space_before_exec(self.string, e) {
                    None => {
                        self.start_idx = 0;
                    },
                    Some(w) => {
                        self.start_idx = w + 1;
                    },
                }
            },
        }
    }
}

/// Position of the first occurrence of `c` at or after `i`, or `s.len()`.
pub open spec fn find_char(s: Seq<char>, c: char, i: int) -> int
    decreases s.len() - i
        when 0 <= i <= s.len()
{
    if i >= s.len() {
        s.len() as int
    } else if s[i] == c {
        i
    } else {
        find_char(s, c, i + 1)
    }
}

pub broadcast proof fn lemma_find_char(s: Seq<char>, c: char, i: int)
    requires
        0 <= i <= s.len(),
    ensures
        i <= #[trigger] find_char(s, c, i) <= s.len(),
        forall|j: int| i <= j < find_char(s, c, i) ==> s[j] != c,
        find_char(s, c, i) < s.len() ==> s[find_char(s, c, i)] == c,
    decreases s.len() - i,
{
    if i < s.len() && s[i] != c {
        lemma_find_char(s, c, i + 1);
    }
}

pub fn find_char_exec(s: &str, c: char, from: usize) -> (r: usize)
    requires
        from <= s@.len(),
    ensures
        r == find_char(s@, c, from as int),
{
    broadcast use lemma_find_char;

    let len = s.unicode_len();
    let mut i: usize = from;
    while i < len
        invariant
            from <= i <= len,
            len == s@.len(),
            find_char(s@, c, from as int) == find_char(s@, c, i as int),
        decreases len - i,
    {
        if s.get_char(i) == c {
            return i;
        }
        i = i + 1;
    }
    i
}

/// Pins `find_char` down: `j` is the first occurrence (or the end).
pub proof fn lemma_find_char_exact(s: Seq<char>, c: char, i: int, j: int)
    requires
        0 <= i <= j <= s.len(),
        forall|k: int| i <= k < j ==> s[k] != c,
        j < s.len() ==> s[j] == c,
    ensures
        find_char(s, c, i) == j,
    decreases j - i,
{
    if i < j {
        lemma_find_char_exact(s, c, i + 1, j);
    }
}

/// `i` is where a tokenizer can stand: at the end, or on the first character
/// of a token.
pub open spec fn at_token_start(s: Seq<char>, i: int) -> bool {
    &&& 0 <= i <= s.len()
    &&& i < s.len() ==> !spec_is_space(s[i]) && (i == 0 || spec_is_space(s[i - 1]))
}

proof fn lemma_find_space_exact(s: Seq<char>, i: int, j: int)
    requires
        0 <= i <= j <= s.len(),
        forall|k: int| i <= k < j ==> !spec_is_space(s[k]),
        j < s.len() ==> spec_is_space(s[j]),
    ensures
        find_space(s, i) == j,
    decreases j - i,
{
    if i < j {
        lemma_find_space_exact(s, i + 1, j);
    }
}

proof fn lemma_find_non_space_exact(s: Seq<char>, i: int, j: int)
    requires
        0 <= i <= j <= s.len(),
        forall|k: int| i <= k < j ==> spec_is_space(s[k]),
        j < s.len() ==> !spec_is_space(s[j]),
    ensures
        find_non_space(s, i) == j,
    decreases j - i,
{
    if i < j {
        lemma_find_non_space_exact(s, i + 1, j);
    }
}

proof fn lemma_last_non_space_exact(s: Seq<char>, i: int, j: int)
    requires
        0 <= j < i <= s.len(),
        !spec_is_space(s[j]),
        forall|k: int| j < k < i ==> spec_is_space(s[k]),
    ensures
        last_non_space_before(s, i) == j,
    decreases i - j,
{
    if j < i - 1 {
        lemma_last_non_space_exact(s, i - 1, j);
    }
}

proof fn lemma_last_space_exact(s: Seq<char>, i: int, j: int)
    requires
        0 <= j < i <= s.len(),
        spec_is_space(s[j]),
        forall|k: int| j < k < i ==> !spec_is_space(s[k]),
    ensures
        last_space_before(s, i) == j,
    decreases i - j,
{
    if j < i - 1 {
        lemma_last_space_exact(s, i - 1, j);
    }
}

proof fn lemma_last_space_none(s: Seq<char>, i: int)
    requires
        0 <= i <= s.len(),
        forall|k: int| 0 <= k < i ==> !spec_is_space(s[k]),
    ensures
        last_space_before(s, i) == -1,
    decreases i,
{
    if i > 0 {
        lemma_last_space_none(s, i - 1);
    }
}

/// A freshly built tokenizer stands at a token start.
pub proof fn lemma_new_token_start(s: Seq<char>)
    ensures
        at_token_start(s, find_non_space(s, 0)),
{
    broadcast use lemma_find_non_space;

    let n = find_non_space(s, 0);
    if 0 < n < s.len() {
        assert(spec_is_space(s[n - 1]));
    }
}

/// After taking the token at `i`, the tokenizer again stands at a token start.
pub proof fn lemma_tok_next_token_start(s: Seq<char>, i: int)
    requires
        at_token_start(s, i),
        i < s.len(),
    ensures
        at_token_start(s, tok_next(s, i)),
        i < tok_next(s, i),
    decreases 0int,
{
    broadcast use lemma_find_space, lemma_find_non_space;

    let e = tok_end(s, i);
    assert(e > i);
    let n = tok_next(s, i);
    if n < s.len() {
        assert(n > e);
        assert(spec_is_space(s[n - 1]));
    }
}

/// Rewind idempotence: if `next()` just consumed the token starting at `i`,
/// `rewind()` puts the tokenizer back at `i`, so the following `next()`
/// returns the same token again.
pub proof fn lemma_rewind_reproduces_token(s: Seq<char>, i: int)
    requires
        at_token_start(s, i),
        i < s.len(),
    ensures
        prev_token_start(s, tok_next(s, i)) == i,
{
    broadcast use lemma_find_space, lemma_find_non_space;

    let e = tok_end(s, i);
    let n = tok_next(s, i);
    assert(i < e <= n);
    assert(!spec_is_space(s[e - 1]));
    lemma_last_non_space_exact(s, n, e - 1);
    if i > 0 {
        lemma_last_space_exact(s, e - 1, i - 1);
    } else {
        lemma_last_space_none(s, e - 1);
    }
}

/// Rewinding past the end: when `next()` has exhausted the input, `rewind()`
/// moves to the start of the last token of the string, and reading from there
/// exhausts the input again.
pub proof fn lemma_rewind_after_exhausted(s: Seq<char>)
    requires
        last_non_space_before(s, s.len() as int) >= 0,
    ensures
        ({
            let j = prev_token_start(s, s.len() as int);
            &&& at_token_start(s, j)
            &&& j < s.len()
            &&& tok_end(s, j) == last_non_space_before(s, s.len() as int) + 1
            &&& tok_next(s, j) == s.len()
        }),
{
    broadcast use lemma_last_non_space_before, lemma_last_space_before;

    let e = last_non_space_before(s, s.len() as int);
    let w = last_space_before(s, e);
    let j = w + 1;
    assert(forall|k: int| j <= k <= e ==> !spec_is_space(s[k]));
    lemma_find_space_exact(s, j, e + 1);
    lemma_find_non_space_exact(s, e + 1, s.len() as int);
}

pub(crate) fn str_eq_exact(a: &str, b: &str) -> (r: bool)
    ensures
        r == (a@ == b@),
{
    let la = a.unicode_len();
    let lb = b.unicode_len();
    if la != lb {
        proof {
            assert(a@.len() != b@.len());
        }
        return false;
    }
    let mut i: usize = 0;
    while i < la
        invariant
            0 <= i <= la,
            la == a@.len(),
            la == b@.len(),
            forall|j: int| 0 <= j < i ==> a@[j] == b@[j],
        decreases la - i,
    {
        if a.get_char(i) != b.get_char(i) {
            return false;
        }
        i = i + 1;
    }
    proof {
        assert(a@ =~= b@);
    }
    true
}

/// The tokens of `s`, read from position `i` on.
pub open spec fn tokens_from(s: Seq<char>, i: int) -> Seq<Seq<char>>
    decreases s.len() - i
        when 0 <= i <= s.len()
        via tokens_from_decreases
{
    if i >= s.len() {
        Seq::empty()
    } else {
        seq![tok_at(s, i)] + tokens_from(s, tok_next(s, i))
    }
}

#[via_fn]
proof fn tokens_from_decreases(s: Seq<char>, i: int) {
    broadcast use lemma_find_space, lemma_find_non_space;

}

/// The token sequence of a string.
pub open spec fn tokens(s: Seq<char>) -> Seq<Seq<char>> {
    tokens_from(s, find_non_space(s, 0))
}

/// The tokens joined back together with single-space separators.
pub open spec fn join_tokens(ts: Seq<Seq<char>>) -> Seq<char>
    decreases ts.len(),
{
    if ts.len() == 0 {
        Seq::empty()
    } else if ts.len() == 1 {
        ts[0]
    } else {
        ts[0] + seq![' '] + join_tokens(ts.drop_first())
    }
}

/// Every token is non-empty and free of whitespace.
pub open spec fn is_token_list(ts: Seq<Seq<char>>) -> bool {
    forall|i: int|
        0 <= i < ts.len() ==> (#[trigger] ts[i]).len() > 0 && forall|j: int|
            0 <= j < ts[i].len() ==> !spec_is_space(ts[i][j])
}

/// What the tokenizer hands out is a token list.
pub proof fn lemma_tokens_are_tokens(s: Seq<char>, i: int)
    requires
        0 <= i <= s.len(),
        at_token_start(s, i),
    ensures
        is_token_list(tokens_from(s, i)),
    decreases s.len() - i,
{
    broadcast use lemma_find_space, lemma_find_non_space;

    if i < s.len() {
        lemma_tok_next_token_start(s, i);
        lemma_tokens_are_tokens(s, tok_next(s, i));
        let t = tok_at(s, i);
        let rest = tokens_from(s, tok_next(s, i));
        assert(t.len() > 0);
        assert(forall|j: int| 0 <= j < t.len() ==> !spec_is_space(t[j]));
        assert forall|k: int|
            0 <= k < tokens_from(s, i).len() implies (#[trigger] tokens_from(s, i)[k]).len() > 0
            && forall|j: int|
            0 <= j < tokens_from(s, i)[k].len() ==> !spec_is_space(tokens_from(s, i)[k][j]) by {
            if k > 0 {
                assert(tokens_from(s, i)[k] == rest[k - 1]);
            }
        }
    }
}

/// Searching a concatenation past the prefix is searching the suffix.
proof fn lemma_find_shift(p: Seq<char>, s: Seq<char>, k: int)
    requires
        0 <= k <= s.len(),
    ensures
        find_space(p + s, p.len() + k) == p.len() + find_space(s, k),
        find_non_space(p + s, p.len() + k) == p.len() + find_non_space(s, k),
    decreases s.len() - k,
{
    let c = p + s;
    if k < s.len() {
        assert(c[p.len() + k] == s[k]);
        lemma_find_shift(p, s, k + 1);
    }
}

/// Tokenizing a concatenation past the prefix is tokenizing the suffix.
proof fn lemma_tokens_shift(p: Seq<char>, s: Seq<char>, k: int)
    requires
        0 <= k <= s.len(),
    ensures
        tokens_from(p + s, p.len() + k) == tokens_from(s, k),
    decreases s.len() - k,
{
    broadcast use lemma_find_space, lemma_find_non_space;

    let c = p + s;
    if k < s.len() {
        lemma_find_shift(p, s, k);
        let e = find_space(s, k);
        lemma_find_shift(p, s, e);
        assert(tok_end(c, p.len() + k) == p.len() + e);
        assert(tok_next(c, p.len() + k) == p.len() + tok_next(s, k));
        assert(tok_at(c, p.len() + k) =~= tok_at(s, k));
        lemma_tokens_shift(p, s, tok_next(s, k));
        assert(tokens_from(c, p.len() + k) =~= tokens_from(s, k));
    }
}

/// Re-tokenizing a joined token list gives the list back.
proof fn lemma_tokens_of_join(ts: Seq<Seq<char>>)
    requires
        is_token_list(ts),
    ensures
        tokens(join_tokens(ts)) == ts,
    decreases ts.len(),
{
    broadcast use lemma_find_space, lemma_find_non_space;

    if ts.len() == 0 {
        let j = join_tokens(ts);
        assert(j.len() == 0);
        assert(tokens(j) =~~= ts);
    } else if ts.len() == 1 {
        let t = ts[0];
        assert(t.len() > 0 && !spec_is_space(t[0]));
        lemma_find_non_space_exact(t, 0, 0);
        lemma_find_space_exact(t, 0, t.len() as int);
        assert(tok_at(t, 0) =~= t);
        assert(tok_next(t, 0) == t.len());
        assert(tokens_from(t, t.len() as int) =~= Seq::<Seq<char>>::empty());
        assert(tokens(t) =~~= ts);
    } else {
        let t0 = ts[0];
        let l = t0.len() as int;
        let rest = join_tokens(ts.drop_first());
        let j = t0 + seq![' '] + rest;
        assert(ts.drop_first().len() > 0);
        assert(is_token_list(ts.drop_first())) by {
            assert forall|i: int|
                0 <= i < ts.drop_first().len() implies (#[trigger] ts.drop_first()[i]).len() > 0
                && forall|k: int|
                0 <= k < ts.drop_first()[i].len() ==> !spec_is_space(ts.drop_first()[i][k]) by {
                assert(ts.drop_first()[i] == ts[i + 1]);
            }
        }
        lemma_tokens_of_join(ts.drop_first());
        // `rest` begins with the first character of the next token.
        assert(rest[0] == ts.drop_first()[0][0] && !spec_is_space(rest[0]) && rest.len() > 0);
        assert(j.len() == l + 1 + rest.len());
        assert(t0.len() > 0 && !spec_is_space(t0[0]) && j[0] == t0[0]);
        lemma_find_non_space_exact(j, 0, 0);
        assert forall|k: int| 0 <= k < l implies !spec_is_space(#[trigger] j[k]) by {
            assert(j[k] == t0[k]);
        }
        assert(spec_is_space(j[l]));
        lemma_find_space_exact(j, 0, l);
        assert(tok_at(j, 0) =~= t0);
        assert(!spec_is_space(j[l + 1])) by {
            assert(j[l + 1] == rest[0]);
        }
        lemma_find_non_space_exact(j, l, l + 1);
        assert(tok_next(j, 0) == l + 1);
        let p = t0.push(' ');
        assert(j =~= p + rest);
        lemma_tokens_shift(p, rest, 0);
        assert(tokens_from(j, l + 1) == tokens_from(rest, 0));
        assert(tokens(rest) == tokens_from(rest, 0)) by {
            lemma_find_non_space_exact(rest, 0, 0);
        }
        assert(tokens(j) =~~= seq![t0] + tokens_from(rest, 0));
        assert(seq![t0] + ts.drop_first() =~~= ts);
    }
}

/// Tokenizer round trip: joining the tokens of any string with single-space
/// separators loses nothing but the shape of the whitespace — tokenizing the
/// joined string yields exactly the token sequence it was joined from.
pub proof fn lemma_join_tokens_round_trip(s: Seq<char>)
    ensures
        tokens(join_tokens(tokens(s))) == tokens(s),
{
    lemma_new_token_start(s);
    broadcast use lemma_find_non_space;

    lemma_tokens_are_tokens(s, find_non_space(s, 0));
    lemma_tokens_of_join(tokens(s));
}

/// Removes leading and trailing whitespace.
pub open spec fn spec_trim(s: Seq<char>) -> Seq<char> {
    let b = find_non_space(s, 0);
    if b == s.len() {
        Seq::empty()
    } else {
        s.subrange(b, last_non_space_before(s, s.len() as int) + 1)
    }
}

fn trim_exec(s: &str) -> (r: String)
    ensures
        r@ == spec_trim(s@),
{
    proof {
        broadcast use lemma_find_non_space, lemma_last_non_space_before;

    }
    let len = s.unicode_len();
    let b = find_non_space_exec(s, 0);
    if b == len {
        String::new()
    } else {
        let e = match last_non_space_before_exec(s, len) {
            Some(e) => e,
            None => {
                // Unreachable: a non-whitespace character exists at `b`.
                proof {
                    assert(!spec_is_space(s@[b as int]));
                }
                0
            },
        };
        proof {
            assert(b <= e < len);
        }
        String::from_str(s.substring_char(b, e + 1))
    }
}

/// What `str_head_tail` returns: the part before the first whitespace
/// character and the part after it, both trimmed.
pub open spec fn spec_head_tail(s: Seq<char>) -> (Seq<char>, Seq<char>) {
    let k = find_space(s, 0);
    if k == s.len() {
        (spec_trim(s), Seq::empty())
    } else {
        (spec_trim(s.subrange(0, k)), spec_trim(s.subrange(k + 1, s.len() as int)))
    }
}

/// Splits a string at the first whitespace and returns a tuple of the parts,
/// both trimmed.
pub fn str_head_tail(s: &str) -> (r: (String, String))
    ensures
        r.0@ == spec_head_tail(s@).0,
        r.1@ == spec_head_tail(s@).1,
{
    proof {
        broadcast use lemma_find_space;

    }
    let len = s.unicode_len();
    let k = find_space_exec(s, 0);
    if k == len {
        (trim_exec(s), String::new())
    } else {
        (trim_exec(s.substring_char(0, k)), trim_exec(s.substring_char(k + 1, len)))
    }
}

} // verus!
