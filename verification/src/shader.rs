//! Shader source registry and recursive splice-directive expansion.
//!
//! A [`Resolver`] maps logical names to raw source text. [`Resolver::resolve`]
//! rewrites a registered source line by line: a line of the form
//! `#` + the directive keyword + a double-quoted name is replaced by the fully
//! resolved text of the named source followed by a newline; every other line
//! is copied verbatim followed by a newline. Expansion recurses before
//! substitution, detects cycles, and reports unregistered targets.

use vstd::prelude::*;

verus! {

/// One registered shader source: a logical name and its raw text, both fixed
/// at construction.
pub struct Source {
    name: Vec<u8>,
    text: Vec<u8>,
}

impl Source {
    /// Wraps a logical name and the raw text registered under it.
    pub fn new(name: Vec<u8>, text: Vec<u8>) -> (r: Source)
        ensures
            r.spec_name() == name@,
            r.spec_text() == text@,
    {
        Source { name, text }
    }

    /// The logical name this source is registered under.
    pub closed spec fn spec_name(self) -> Seq<u8> {
        self.name@
    }

    /// The raw text of this source.
    pub closed spec fn spec_text(self) -> Seq<u8> {
        self.text@
    }
}

/// The mapping a sequence of registrations denotes: later registrations of
/// the same name override earlier ones.
pub open spec fn map_of(sources: Seq<Source>) -> Map<Seq<u8>, Seq<u8>>
    decreases sources.len(),
{
    if sources.len() == 0 {
        Map::empty()
    } else {
        map_of(sources.drop_last()).insert(sources.last().spec_name(), sources.last().spec_text())
    }
}

/// Owns the registered sources; queried by name via [`Resolver::resolve`].
pub struct Resolver {
    sources: Vec<Source>,
}

impl Resolver {
    /// The name-to-text mapping this resolver currently holds.
    pub closed spec fn view(self) -> Map<Seq<u8>, Seq<u8>> {
        map_of(self.sources@)
    }

    /// An empty resolver: no source is registered.
    pub fn new() -> (r: Resolver)
        ensures
            r@ == Map::<Seq<u8>, Seq<u8>>::empty(),
    {
        Resolver { sources: Vec::new() }
    }

    /// Registers one source; a later registration of the same name wins.
    pub fn push(&mut self, source: Source)
        ensures
            final(self)@ == old(self)@.insert(source.spec_name(), source.spec_text()),
    {
        self.sources.push(source);
        proof {
            assert(self.sources@.drop_last() =~= old(self).sources@);
        }
    }
}

/// Whitespace, as the directive grammar admits it: space, tab, line feed,
/// vertical tab, form feed, carriage return.
pub open spec fn is_space(b: u8) -> bool {
    b == 32 || b == 9 || b == 10 || b == 11 || b == 12 || b == 13
}

/// Printable bytes, the only ones a quoted target may hold.
pub open spec fn is_printable(b: u8) -> bool {
    32 <= b && b <= 126
}

/// The seven bytes of the directive keyword that follows `#` on a splice line.
pub open spec fn keyword() -> Seq<u8> {
    seq![105u8, 110u8, 99u8, 108u8, 117u8, 100u8, 101u8]
}

/// First index at or after `i` holding a non-space byte, or the length when
/// only spaces remain.
pub open spec fn skip_spaces(s: Seq<u8>, i: int) -> int
    decreases s.len() - i,
{
    if 0 <= i < s.len() && is_space(s[i]) {
        skip_spaces(s, i + 1)
    } else {
        i
    }
}

/// Index of the last double-quote byte in `s`, or -1 when there is none.
pub open spec fn last_quote(s: Seq<u8>) -> int
    decreases s.len(),
{
    if s.len() == 0 {
        -1
    } else if s[s.len() - 1] == 34 {
        s.len() - 1
    } else {
        last_quote(s.drop_last())
    }
}

/// The target named by a splice-directive line, or `None` when the line does
/// not match the directive grammar: optional leading whitespace, `#`, optional
/// whitespace, the keyword, at least one whitespace byte, a non-empty
/// double-quoted run of printable bytes, optional trailing whitespace, end of
/// line. The closing quote is the last quote of the line, so a quote may
/// appear inside the target; any other shape is an ordinary text line.
pub open spec fn spec_target(line: Seq<u8>) -> Option<Seq<u8>> {
    let i = skip_spaces(line, 0);
    if !(i < line.len() && line[i] == 35) {
        None
    } else {
        let j = skip_spaces(line, i + 1);
        if !(j + 7 <= line.len() && line.subrange(j, j + 7) == keyword()) {
            None
        } else if !(j + 7 < line.len() && is_space(line[j + 7])) {
            None
        } else {
            let k = skip_spaces(line, j + 7);
            if !(k < line.len() && line[k] == 34) {
                None
            } else {
                let q = last_quote(line);
                if q >= k + 2 && (forall|x: int| k < x < q ==> is_printable(line[x])) && (forall|
                    x: int,
                |
                    q < x < line.len() ==> is_space(line[x])) {
                    Some(line.subrange(k + 1, q))
                } else {
                    None
                }
            }
        }
    }
}

/// `skip_spaces` lands exactly on the first non-space index.
proof fn lemma_skip_spaces_exact(s: Seq<u8>, i: int, r: int)
    requires
        0 <= i <= r <= s.len(),
        forall|x: int| i <= x < r ==> is_space(s[x]),
        r < s.len() ==> !is_space(s[r]),
    ensures
        skip_spaces(s, i) == r,
    decreases r - i,
{
    if i < r {
        lemma_skip_spaces_exact(s, i + 1, r);
    }
}

/// `last_quote` is exactly the index a backwards scan finds.
proof fn lemma_last_quote_exact(s: Seq<u8>, r: int)
    requires
        -1 <= r < s.len(),
        r >= 0 ==> s[r] == 34,
        forall|x: int| r < x < s.len() ==> s[x] != 34,
    ensures
        last_quote(s) == r,
    decreases s.len(),
{
    if s.len() > 0 && s[s.len() - 1] != 34 {
        assert(forall|x: int| 0 <= x < s.len() - 1 ==> s.drop_last()[x] == s[x]);
        lemma_last_quote_exact(s.drop_last(), r);
    }
}

/// Executable test for [`is_space`].
fn space_byte(b: u8) -> (r: bool)
    ensures
        r == is_space(b),
{
    b == 32 || b == 9 || b == 10 || b == 11 || b == 12 || b == 13
}

/// The byte of [`keyword`] at position `x`.
fn keyword_byte(x: usize) -> (r: u8)
    requires
        x < 7,
    ensures
        r == keyword()[x as int],
{
    if x == 0 {
        105
    } else if x == 1 {
        110
    } else if x == 2 {
        99
    } else if x == 3 {
        108
    } else if x == 4 {
        117
    } else if x == 5 {
        100
    } else {
        101
    }
}

/// Parses one line against the directive grammar and returns the quoted
/// target when the line is a splice directive.
pub fn line_target(line: &Vec<u8>) -> (r: Option<Vec<u8>>)
    ensures
        match r {
            Some(t) => spec_target(line@) == Some(t@),
            None => spec_target(line@) is None,
        },
{
    let n = line.len();

    // Leading whitespace, then `#`.
    let mut i: usize = 0;
    while i < n && space_byte(line[i])
        invariant
            0 <= i <= n,
            n == line@.len(),
            forall|x: int| 0 <= x < i ==> is_space(line@[x]),
        decreases n - i,
    {
        i += 1;
    }
    proof {
        lemma_skip_spaces_exact(line@, 0, i as int);
    }
    if !(i < n && line[i] == 35) {
        return None;
    }

    // Whitespace, then the keyword.
    let mut j: usize = i + 1;
    while j < n && space_byte(line[j])
        invariant
            i + 1 <= j <= n,
            n == line@.len(),
            forall|x: int| i + 1 <= x < j ==> is_space(line@[x]),
        decreases n - j,
    {
        j += 1;
    }
    proof {
        lemma_skip_spaces_exact(line@, i as int + 1, j as int);
    }
    if n - j < 7 {
        proof {
            assert(spec_target(line@) is None);
        }
        return None;
    }
    let mut w: usize = 0;
    let mut kw_ok = true;
    while w < 7
        invariant
            0 <= w <= 7,
            j + 7 <= n,
            n == line@.len(),
            kw_ok ==> forall|x: int| 0 <= x < w ==> line@[j + x] == keyword()[x],
            !kw_ok ==> exists|x: int| 0 <= x < w && line@[j + x] != keyword()[x],
        decreases 7 - w,
    {
        if line[j + w] != keyword_byte(w) {
            kw_ok = false;
        }
        w += 1;
    }
    if !kw_ok {
        proof {
            let x = choose|x: int| 0 <= x < 7 && line@[j + x] != keyword()[x];
            assert(line@.subrange(j as int, j as int + 7)[x] != keyword()[x]);
        }
        return None;
    }
    proof {
        assert(line@.subrange(j as int, j as int + 7) =~= keyword());
    }

    // At least one whitespace byte after the keyword.
    if !(j + 7 < n && space_byte(line[j + 7])) {
        return None;
    }

    // Whitespace, then the opening quote.
    let mut k: usize = j + 7;
    while k < n && space_byte(line[k])
        invariant
            j + 7 <= k <= n,
            n == line@.len(),
            forall|x: int| j + 7 <= x < k ==> is_space(line@[x]),
        decreases n - k,
    {
        k += 1;
    }
    proof {
        lemma_skip_spaces_exact(line@, j as int + 7, k as int);
    }
    if !(k < n && line[k] == 34) {
        return None;
    }

    // The closing quote is the last quote of the whole line.
    let mut q: usize = 0;
    let mut found = false;
    let mut x: usize = 0;
    while x < n
        invariant
            0 <= x <= n,
            n == line@.len(),
            found ==> q < x && line@[q as int] == 34 && forall|y: int| q < y < x ==> line@[y]
                != 34,
            !found ==> forall|y: int| 0 <= y < x ==> line@[y] != 34,
        decreases n - x,
    {
        if line[x] == 34 {
            q = x;
            found = true;
        }
        x += 1;
    }
    proof {
        if found {
            lemma_last_quote_exact(line@, q as int);
        } else {
            lemma_last_quote_exact(line@, -1);
        }
    }
    if !(found && q > k && q - k >= 2) {
        return None;
    }

    // Every byte inside the quotes is printable.
    let mut p: usize = k + 1;
    while p < q && 32 <= line[p] && line[p] <= 126
        invariant
            k + 1 <= p <= q,
            q < n,
            n == line@.len(),
            forall|x2: int| k < x2 < p ==> is_printable(line@[x2]),
        decreases q - p,
    {
        p += 1;
    }
    if p < q {
        return None;
    }

    // Only whitespace after the closing quote.
    let mut t: usize = q + 1;
    while t < n && space_byte(line[t])
        invariant
            q + 1 <= t <= n,
            n == line@.len(),
            forall|x2: int| q < x2 < t ==> is_space(line@[x2]),
        decreases n - t,
    {
        t += 1;
    }
    if t < n {
        return None;
    }

    // The line matches; copy the target out.
    let mut out: Vec<u8> = Vec::new();
    let mut c: usize = k + 1;
    while c < q
        invariant
            k + 1 <= c <= q,
            q < n,
            n == line@.len(),
            out@ == line@.subrange(k as int + 1, c as int),
        decreases q - c,
    {
        out.push(line[c]);
        proof {
            assert(line@.subrange(k as int + 1, c as int + 1) =~= line@.subrange(
                k as int + 1,
                c as int,
            ).push(line@[c as int]));
        }
        c += 1;
    }
    Some(out)
}

/// First index of a line-feed byte, or the length when there is none.
pub open spec fn first_nl(s: Seq<u8>) -> int
    decreases s.len(),
{
    if s.len() == 0 {
        0
    } else if s[0] == 10 {
        0
    } else {
        1 + first_nl(s.drop_first())
    }
}

/// `first_nl` stays within bounds and lands exactly on the first line feed.
pub proof fn lemma_first_nl_bounds(s: Seq<u8>)
    ensures
        0 <= first_nl(s) <= s.len(),
        forall|x: int| 0 <= x < first_nl(s) ==> s[x] != 10,
        first_nl(s) < s.len() ==> s[first_nl(s)] == 10,
    decreases s.len(),
{
    if s.len() > 0 && s[0] != 10 {
        lemma_first_nl_bounds(s.drop_first());
        assert forall|x: int| 0 <= x < first_nl(s) implies s[x] != 10 by {
            if x > 0 {
                assert(s.drop_first()[x - 1] == s[x]);
            }
        }
    }
}

/// `first_nl` is exactly the index a forward scan finds.
proof fn lemma_first_nl_exact(s: Seq<u8>, r: int)
    requires
        0 <= r <= s.len(),
        forall|x: int| 0 <= x < r ==> s[x] != 10,
        r < s.len() ==> s[r] == 10,
    ensures
        first_nl(s) == r,
    decreases s.len(),
{
    if s.len() > 0 && s[0] != 10 {
        assert(forall|x: int| 0 <= x < s.len() - 1 ==> s.drop_first()[x] == s[x + 1]);
        lemma_first_nl_exact(s.drop_first(), r - 1);
    }
}

/// One trailing carriage return removed, as the line iterator removes it.
pub open spec fn strip_cr(l: Seq<u8>) -> Seq<u8> {
    if l.len() > 0 && l[l.len() - 1] == 13 {
        l.drop_last()
    } else {
        l
    }
}

/// The lines of `s`: pieces split at line feeds, a line feed terminating the
/// final piece being optional, with one trailing carriage return removed from
/// each piece.
pub open spec fn spec_lines(s: Seq<u8>) -> Seq<Seq<u8>>
    decreases s.len(),
    via spec_lines_dec
{
    if s.len() == 0 {
        Seq::empty()
    } else {
        let i = first_nl(s);
        if i == s.len() {
            seq![strip_cr(s)]
        } else {
            seq![strip_cr(s.subrange(0, i))] + spec_lines(s.subrange(i + 1, s.len() as int))
        }
    }
}

#[via_fn]
proof fn spec_lines_dec(s: Seq<u8>) {
    lemma_first_nl_bounds(s);
}

/// Each line followed by one line feed, concatenated in order.
pub open spec fn join_nl(lines: Seq<Seq<u8>>) -> Seq<u8>
    decreases lines.len(),
{
    if lines.len() == 0 {
        Seq::empty()
    } else {
        lines[0] + seq![10u8] + join_nl(lines.drop_first())
    }
}

/// The views of a sequence of byte vectors, element by element.
pub open spec fn views_of(v: Seq<Vec<u8>>) -> Seq<Seq<u8>> {
    v.map_values(|x: Vec<u8>| x@)
}

/// Splits raw text into its lines.
pub fn split_lines(text: &Vec<u8>) -> (r: Vec<Vec<u8>>)
    ensures
        views_of(r@) == spec_lines(text@),
{
    let n = text.len();
    let mut out: Vec<Vec<u8>> = Vec::new();
    let mut start: usize = 0;
    proof {
        assert(text@.subrange(0, n as int) =~= text@);
        assert(views_of(out@) + spec_lines(text@) =~= spec_lines(text@));
    }
    while start < n
        invariant
            start <= n,
            n == text@.len(),
            spec_lines(text@) =~= views_of(out@) + spec_lines(text@.subrange(start as int, n as int)),
        decreases n - start,
    {
        let mut j: usize = start;
        while j < n && text[j] != 10
            invariant
                start <= j <= n,
                n == text@.len(),
                forall|x: int| start <= x < j ==> text@[x] != 10,
            decreases n - j,
        {
            j += 1;
        }
        let ghost tail = text@.subrange(start as int, n as int);
        proof {
            assert(forall|x: int| 0 <= x < tail.len() ==> tail[x] == text@[start + x]);
            lemma_first_nl_exact(tail, j - start);
        }
        let end: usize = if j > start && text[j - 1] == 13 {
            j - 1
        } else {
            j
        };
        let mut piece: Vec<u8> = Vec::new();
        let mut c: usize = start;
        while c < end
            invariant
                start <= c <= end,
                end <= n,
                n == text@.len(),
                piece@ == text@.subrange(start as int, c as int),
            decreases end - c,
        {
            piece.push(text[c]);
            proof {
                assert(text@.subrange(start as int, c as int + 1) =~= text@.subrange(
                    start as int,
                    c as int,
                ).push(text@[c as int]));
            }
            c += 1;
        }
        proof {
            assert(piece@ =~= strip_cr(text@.subrange(start as int, j as int))) by {
                let whole = text@.subrange(start as int, j as int);
                if j > start && text@[j - 1] == 13 {
                    assert(whole[whole.len() - 1] == 13);
                    assert(whole.drop_last() =~= text@.subrange(start as int, end as int));
                } else {
                }
            };
            assert(tail.subrange(0, j - start) =~= text@.subrange(start as int, j as int));
        }
        let ghost out_before = out@;
        out.push(piece);
        proof {
            assert(views_of(out@) =~= views_of(out_before).push(piece@));
        }
        if j < n {
            proof {
                assert(tail.subrange(j - start + 1, tail.len() as int) =~= text@.subrange(
                    j as int + 1,
                    n as int,
                ));
            }
            start = j + 1;
        } else {
            start = n;
        }
    }
    proof {
        assert(text@.subrange(n as int, n as int) =~= Seq::<u8>::empty());
        assert(views_of(out@) + Seq::<Seq<u8>>::empty() =~= views_of(out@));
    }
    out
}

/// Why resolution failed, stated over mathematical values.
pub enum SpecError {
    /// The name handed to `resolve` was never registered.
    NotFound,
    /// A directive named a target that is not registered.
    Missing(Seq<u8>),
    /// A directive named a target that is currently being expanded.
    Cycle(Seq<u8>),
}

/// Why resolution failed: the name handed to `resolve` was never registered,
/// a directive named an unregistered target, or the directive graph has a
/// cycle. The payload is the offending name.
pub enum ResolveError {
    NotFound,
    Missing(Vec<u8>),
    Cycle(Vec<u8>),
}

impl View for ResolveError {
    type V = SpecError;

    open spec fn view(&self) -> SpecError {
        match self {
            ResolveError::NotFound => SpecError::NotFound,
            ResolveError::Missing(n) => SpecError::Missing(n@),
            ResolveError::Cycle(n) => SpecError::Cycle(n@),
        }
    }
}

/// The set of names a sequence of name vectors holds.
pub open spec fn set_of(names: Seq<Vec<u8>>) -> Set<Seq<u8>> {
    views_of(names).to_set()
}

/// Appending one name inserts exactly its view into the denoted set.
proof fn lemma_set_of_push(names: Seq<Vec<u8>>, x: Vec<u8>)
    ensures
        set_of(names.push(x)) =~= set_of(names).insert(x@),
{
    assert(views_of(names.push(x)) =~= views_of(names).push(x@));
    let s = views_of(names);
    assert forall|y: Seq<u8>| s.push(x@).contains(y) implies (s.contains(y) || y == x@) by {
        let i = choose|i: int| 0 <= i < s.push(x@).len() && s.push(x@)[i] == y;
        if i < s.len() {
            assert(s[i] == y);
        }
    }
    assert forall|y: Seq<u8>| s.contains(y) implies s.push(x@).contains(y) by {
        let i = choose|i: int| 0 <= i < s.len() && s[i] == y;
        assert(s.push(x@)[i] == y);
    }
    assert(s.push(x@).contains(x@)) by {
        assert(s.push(x@)[s.len() as int] == x@);
    }
}

/// The resolved text of a sequence of lines, against the registered map `m`,
/// while the names in `active` are being expanded. A line that is no
/// directive is copied and terminated by a line feed; a directive line
/// becomes the fully resolved text of its target followed by a line feed;
/// a directive whose target is in `active` fails with `Cycle`, one whose
/// target is unregistered fails with `Missing`, and the first failure in
/// line order wins.
pub open spec fn spec_expand(
    m: Map<Seq<u8>, Seq<u8>>,
    lines: Seq<Seq<u8>>,
    active: Set<Seq<u8>>,
) -> Result<Seq<u8>, SpecError>
    decreases m.dom().difference(active).len(), lines.len(),
    when m.dom().finite()
    via spec_expand_dec
{
    if lines.len() == 0 {
        Ok(Seq::empty())
    } else {
        let rest = spec_expand(m, lines.drop_first(), active);
        match spec_target(lines[0]) {
            None => match rest {
                Ok(rt) => Ok(lines[0] + seq![10u8] + rt),
                Err(e) => Err(e),
            },
            Some(t) => {
                if active.contains(t) {
                    Err(SpecError::Cycle(t))
                } else if !m.contains_key(t) {
                    Err(SpecError::Missing(t))
                } else {
                    match spec_expand(m, spec_lines(m[t]), active.insert(t)) {
                        Err(e) => Err(e),
                        Ok(st) => match rest {
                            Err(e) => Err(e),
                            Ok(rt) => Ok(st + seq![10u8] + rt),
                        },
                    }
                }
            },
        }
    }
}

#[via_fn]
proof fn spec_expand_dec(m: Map<Seq<u8>, Seq<u8>>, lines: Seq<Seq<u8>>, active: Set<Seq<u8>>) {
    if m.dom().finite() {
        assert forall|t: Seq<u8>|
            m.contains_key(t) && !active.contains(t) implies m.dom().difference(
            active.insert(t),
        ).len() < m.dom().difference(active).len() by {
            m.dom().lemma_set_insert_diff_decreases(active, t);
        }
    }
}

/// The full resolution of the named source against map `m`: `NotFound` when
/// the name is unregistered, otherwise its lines expanded with the name
/// itself marked active.
pub open spec fn spec_resolve(m: Map<Seq<u8>, Seq<u8>>, name: Seq<u8>) -> Result<
    Seq<u8>,
    SpecError,
> {
    if !m.contains_key(name) {
        Err(SpecError::NotFound)
    } else {
        spec_expand(m, spec_lines(m[name]), Set::empty().insert(name))
    }
}

/// A prefix of resolved output joined onto the outcome of the remaining lines.
pub open spec fn with_prefix(pre: Seq<u8>, r: Result<Seq<u8>, SpecError>) -> Result<
    Seq<u8>,
    SpecError,
> {
    match r {
        Ok(t) => Ok(pre + t),
        Err(e) => Err(e),
    }
}

/// Byte-vector equality.
fn eq_bytes(a: &Vec<u8>, b: &Vec<u8>) -> (r: bool)
    ensures
        r == (a@ == b@),
{
    if a.len() != b.len() {
        assert(a@ != b@);
        return false;
    }
    let n = a.len();
    let mut i: usize = 0;
    while i < n
        invariant
            i <= n,
            n == a@.len() == b@.len(),
            forall|x: int| 0 <= x < i ==> a@[x] == b@[x],
        decreases n - i,
    {
        if a[i] != b[i] {
            assert(a@ != b@);
            return false;
        }
        i += 1;
    }
    proof {
        assert(a@ =~= b@);
    }
    true
}

/// A fresh byte vector with the same contents.
fn copy_bytes(v: &Vec<u8>) -> (r: Vec<u8>)
    ensures
        r@ == v@,
{
    let n = v.len();
    let mut out: Vec<u8> = Vec::new();
    let mut i: usize = 0;
    while i < n
        invariant
            i <= n,
            n == v@.len(),
            out@ == v@.subrange(0, i as int),
        decreases n - i,
    {
        out.push(v[i]);
        proof {
            assert(v@.subrange(0, i as int + 1) =~= v@.subrange(0, i as int).push(v@[i as int]));
        }
        i += 1;
    }
    proof {
        assert(v@.subrange(0, n as int) =~= v@);
    }
    out
}

/// Appends the bytes of `src` onto `out`.
fn append_bytes(out: &mut Vec<u8>, src: &Vec<u8>)
    ensures
        final(out)@ == old(out)@ + src@,
{
    let n = src.len();
    let mut i: usize = 0;
    while i < n
        invariant
            i <= n,
            n == src@.len(),
            out@ == old(out)@ + src@.subrange(0, i as int),
        decreases n - i,
    {
        out.push(src[i]);
        proof {
            assert(old(out)@ + src@.subrange(0, i as int + 1) =~= (old(out)@ + src@.subrange(
                0,
                i as int,
            )).push(src@[i as int]));
        }
        i += 1;
    }
    proof {
        assert(old(out)@ + src@.subrange(0, n as int) =~= old(out)@ + src@);
    }
}

/// Whether `names` holds a vector whose view is `t@`.
fn contains_name(names: &Vec<Vec<u8>>, t: &Vec<u8>) -> (r: bool)
    ensures
        r == set_of(names@).contains(t@),
{
    let n = names.len();
    let mut i: usize = 0;
    while i < n
        invariant
            i <= n,
            n == names@.len(),
            forall|x: int| 0 <= x < i ==> names@[x]@ != t@,
        decreases n - i,
    {
        if eq_bytes(&names[i], t) {
            proof {
                assert(views_of(names@)[i as int] == t@);
            }
            return true;
        }
        i += 1;
    }
    proof {
        assert forall|x: int| 0 <= x < views_of(names@).len() implies views_of(names@)[x]
            != t@ by {}
    }
    false
}

/// The domain of the denoted map is finite and no larger than the number of
/// registrations.
pub proof fn lemma_map_of_finite(sources: Seq<Source>)
    ensures
        map_of(sources).dom().finite(),
        map_of(sources).dom().len() <= sources.len(),
    decreases sources.len(),
{
    if sources.len() > 0 {
        lemma_map_of_finite(sources.drop_last());
    }
}

/// A registration that no later registration overrides decides the map.
proof fn lemma_map_of_get(sources: Seq<Source>, j: int)
    requires
        0 <= j < sources.len(),
        forall|l: int| j < l < sources.len() ==> sources[l].spec_name() != sources[j].spec_name(),
    ensures
        map_of(sources).contains_key(sources[j].spec_name()),
        map_of(sources)[sources[j].spec_name()] == sources[j].spec_text(),
    decreases sources.len(),
{
    if j < sources.len() - 1 {
        assert(forall|l: int| 0 <= l < sources.len() - 1 ==> sources.drop_last()[l] == sources[l]);
        lemma_map_of_get(sources.drop_last(), j);
    }
}

/// A name no registration bears is not in the map.
proof fn lemma_map_of_absent(sources: Seq<Source>, key: Seq<u8>)
    requires
        forall|l: int| 0 <= l < sources.len() ==> sources[l].spec_name() != key,
    ensures
        !map_of(sources).contains_key(key),
    decreases sources.len(),
{
    if sources.len() > 0 {
        assert(forall|l: int| 0 <= l < sources.len() - 1 ==> sources.drop_last()[l] == sources[l]);
        lemma_map_of_absent(sources.drop_last(), key);
    }
}

impl Resolver {
    /// The text registered under `name`, the latest registration winning.
    fn lookup(&self, name: &Vec<u8>) -> (r: Option<&Vec<u8>>)
        ensures
            match r {
                Some(t) => self@.contains_key(name@) && t@ == self@[name@],
                None => !self@.contains_key(name@),
            },
    {
        let n = self.sources.len();
        let mut i: usize = n;
        while i > 0
            invariant
                i <= n,
                n == self.sources@.len(),
                forall|l: int| i <= l < n ==> self.sources@[l].spec_name() != name@,
            decreases i,
        {
            i -= 1;
            if eq_bytes(&self.sources[i].name, name) {
                proof {
                    lemma_map_of_get(self.sources@, i as int);
                }
                return Some(&self.sources[i].text);
            }
        }
        proof {
            lemma_map_of_absent(self.sources@, name@);
        }
        None
    }

    /// Copies `names`, preserving the denoted set of names.
    fn copy_names(names: &Vec<Vec<u8>>) -> (r: Vec<Vec<u8>>)
        ensures
            views_of(r@) == views_of(names@),
    {
        let n = names.len();
        let mut out: Vec<Vec<u8>> = Vec::new();
        let mut i: usize = 0;
        while i < n
            invariant
                i <= n,
                n == names@.len(),
                views_of(out@) == views_of(names@).subrange(0, i as int),
            decreases n - i,
        {
            let piece = copy_bytes(&names[i]);
            let ghost before = out@;
            out.push(piece);
            proof {
                assert(views_of(before).len() == before.len());
                assert(views_of(before).len() == i as int);
                assert(out@.len() == i + 1);
                assert forall|x: int| 0 <= x < i + 1 implies views_of(out@)[x] == views_of(
                    names@,
                ).subrange(0, i as int + 1)[x] by {
                    assert(views_of(out@)[x] == out@[x]@);
                    if x < i {
                        assert(out@[x] == before[x]);
                        assert(views_of(before)[x] == before[x]@);
                    } else {
                        assert(out@[x]@ == names@[i as int]@);
                    }
                }
                assert(views_of(out@) =~= views_of(names@).subrange(0, i as int + 1));
            }
            i += 1;
        }
        proof {
            assert(views_of(names@).subrange(0, n as int) =~= views_of(names@));
        }
        out
    }

    /// Expands `text` line by line while the names in `active` are being
    /// expanded, recursing into each directive's target before substitution.
    fn parse(&self, text: &Vec<u8>, active: &Vec<Vec<u8>>) -> (r: Result<Vec<u8>, ResolveError>)
        ensures
            match r {
                Ok(t) => spec_expand(self@, spec_lines(text@), set_of(active@)) == Ok::<
                    Seq<u8>,
                    SpecError,
                >(t@),
                Err(e) => spec_expand(self@, spec_lines(text@), set_of(active@)) == Err::<
                    Seq<u8>,
                    SpecError,
                >(e@),
            },
        decreases self@.dom().difference(set_of(active@)).len(),
    {
        proof {
            lemma_map_of_finite(self.sources@);
        }
        let ghost m = self@;
        let ghost act = set_of(active@);
        let ghost lv = spec_lines(text@);
        let lines = split_lines(text);
        let nlines = lines.len();
        let mut out: Vec<u8> = Vec::new();
        let mut li: usize = 0;
        proof {
            assert(lv.skip(0) =~= lv);
            assert(Seq::<u8>::empty() + lv[0] == lv[0]) by {}
        }
        while li < nlines
            invariant
                li <= nlines,
                nlines == lines@.len(),
                views_of(lines@) == lv,
                lv == spec_lines(text@),
                m == self@,
                act == set_of(active@),
                m.dom().finite(),
                spec_expand(m, lv, act) == with_prefix(
                    out@,
                    spec_expand(m, lv.skip(li as int), act),
                ),
            decreases nlines - li,
        {
            let ghost pre = out@;
            let ghost rem = lv.skip(li as int);
            proof {
                assert(rem.len() == lv.len() - li);
                assert(rem[0] == lv[li as int]);
                assert(rem.drop_first() =~= lv.skip(li as int + 1));
                assert(lv[li as int] == lines@[li as int]@);
            }
            let line = &lines[li];
            match line_target(line) {
                None => {
                    append_bytes(&mut out, line);
                    out.push(10);
                    proof {
                        let rest = spec_expand(m, lv.skip(li as int + 1), act);
                        assert(out@ =~= pre + (rem[0] + seq![10u8]));
                        match rest {
                            Ok(rt) => {
                                assert(pre + (rem[0] + seq![10u8] + rt) =~= (pre + (rem[0]
                                    + seq![10u8])) + rt);
                            },
                            Err(e) => {},
                        }
                    }
                },
                Some(target) => {
                    if contains_name(active, &target) {
                        proof {
                            assert(spec_expand(m, rem, act) == Err::<Seq<u8>, SpecError>(
                                SpecError::Cycle(target@),
                            ));
                        }
                        return Err(ResolveError::Cycle(target));
                    }
                    match self.lookup(&target) {
                        None => {
                            return Err(ResolveError::Missing(target));
                        },
                        Some(ttext) => {
                            let ghost tv = target@;
                            let mut act2 = Self::copy_names(active);
                            let ghost act2_pre = act2@;
                            act2.push(target);
                            proof {
                                lemma_set_of_push(act2_pre, act2@.last());
                                assert(set_of(act2@) == act.insert(tv));
                                m.dom().lemma_set_insert_diff_decreases(act, tv);
                            }
                            let sub = self.parse(ttext, &act2);
                            match sub {
                                Err(e) => {
                                    proof {
                                        assert(spec_expand(m, rem, act) == Err::<
                                            Seq<u8>,
                                            SpecError,
                                        >(e@));
                                    }
                                    return Err(e);
                                },
                                Ok(st) => {
                                    append_bytes(&mut out, &st);
                                    out.push(10);
                                    proof {
                                        let rest = spec_expand(m, lv.skip(li as int + 1), act);
                                        assert(out@ =~= pre + (st@ + seq![10u8]));
                                        match rest {
                                            Ok(rt) => {
                                                assert(pre + (st@ + seq![10u8] + rt) =~= (pre + (
                                                st@ + seq![10u8])) + rt);
                                            },
                                            Err(e) => {},
                                        }
                                    }
                                },
                            }
                        },
                    }
                },
            }
            li += 1;
        }
        proof {
            assert(lv.skip(nlines as int) =~= Seq::<Seq<u8>>::empty());
            assert(out@ + Seq::<u8>::empty() =~= out@);
        }
        Ok(out)
    }

    /// Resolves the source registered under `name`. Every directive line is
    /// replaced by the fully resolved text of its target followed by a line
    /// feed; every other line is copied and terminated by a line feed. Fails
    /// with `NotFound` exactly when `name` is unregistered, with `Missing`
    /// when a directive names an unregistered target, and with `Cycle` when
    /// the directive graph comes back to a name still being expanded.
    pub fn resolve(&self, name: &Vec<u8>) -> (r: Result<Vec<u8>, ResolveError>)
        ensures
            match r {
                Ok(t) => spec_resolve(self@, name@) == Ok::<Seq<u8>, SpecError>(t@),
                Err(e) => spec_resolve(self@, name@) == Err::<Seq<u8>, SpecError>(e@),
            },
    {
        match self.lookup(name) {
            None => Err(ResolveError::NotFound),
            Some(text) => {
                let mut act: Vec<Vec<u8>> = Vec::new();
                let ghost empty_names = act@;
                act.push(copy_bytes(name));
                proof {
                    lemma_set_of_push(empty_names, act@.last());
                    assert(set_of(empty_names) =~= Set::<Seq<u8>>::empty());
                    assert(set_of(act@) == Set::<Seq<u8>>::empty().insert(name@));
                }
                self.parse(text, &act)
            },
        }
    }
}

/// A source none of whose lines is a directive expands to exactly its lines,
/// each terminated by a single line feed, whatever is being expanded around
/// it.
pub proof fn lemma_expand_plain(
    m: Map<Seq<u8>, Seq<u8>>,
    lines: Seq<Seq<u8>>,
    active: Set<Seq<u8>>,
)
    requires
        m.dom().finite(),
        forall|i: int| 0 <= i < lines.len() ==> spec_target(lines[i]) is None,
    ensures
        spec_expand(m, lines, active) == Ok::<Seq<u8>, SpecError>(join_nl(lines)),
    decreases lines.len(),
{
    if lines.len() > 0 {
        assert(forall|i: int|
            0 <= i < lines.len() - 1 ==> lines.drop_first()[i] == lines[i + 1]);
        lemma_expand_plain(m, lines.drop_first(), active);
    }
}

/// Resolving a registered source with no directive lines returns its exact
/// original lines, in order, each terminated by a single line feed.
pub proof fn lemma_resolve_plain(m: Map<Seq<u8>, Seq<u8>>, name: Seq<u8>)
    requires
        m.dom().finite(),
        m.contains_key(name),
        forall|i: int|
            0 <= i < spec_lines(m[name]).len() ==> spec_target(spec_lines(m[name])[i]) is None,
    ensures
        spec_resolve(m, name) == Ok::<Seq<u8>, SpecError>(join_nl(spec_lines(m[name]))),
{
    lemma_expand_plain(m, spec_lines(m[name]), Set::empty().insert(name));
}

/// Splitting into lines and rejoining with line feeds is the identity on
/// text that holds no carriage return and ends with a line feed (or is
/// empty); so on such sources a directive-free resolve returns the text
/// unchanged.
pub proof fn lemma_join_lines_ident(text: Seq<u8>)
    requires
        forall|i: int| 0 <= i < text.len() ==> text[i] != 13,
        text.len() > 0 ==> text[text.len() - 1] == 10,
    ensures
        join_nl(spec_lines(text)) == text,
    decreases text.len(),
{
    if text.len() > 0 {
        let i = first_nl(text);
        lemma_first_nl_bounds(text);
        assert(i < text.len());
        let head = text.subrange(0, i);
        let tail = text.subrange(i + 1, text.len() as int);
        assert(strip_cr(head) == head);
        assert((seq![head] + spec_lines(tail)).drop_first() =~= spec_lines(tail));
        assert((seq![head] + spec_lines(tail))[0] == head);
        lemma_join_lines_ident(tail);
        assert(head + seq![10u8] + tail =~= text);
    }
}

/// An ordinary-line prefix contributes its lines verbatim, in order, before
/// whatever the remaining lines resolve to: expansion preserves line order.
pub proof fn lemma_expand_ordinary_prefix(
    m: Map<Seq<u8>, Seq<u8>>,
    pre: Seq<Seq<u8>>,
    post: Seq<Seq<u8>>,
    active: Set<Seq<u8>>,
)
    requires
        m.dom().finite(),
        forall|i: int| 0 <= i < pre.len() ==> spec_target(pre[i]) is None,
    ensures
        spec_expand(m, pre + post, active) == with_prefix(
            join_nl(pre),
            spec_expand(m, post, active),
        ),
    decreases pre.len(),
{
    if pre.len() == 0 {
        assert(pre + post =~= post);
        match spec_expand(m, post, active) {
            Ok(t) => {
                assert(Seq::<u8>::empty() + t =~= t);
            },
            Err(e) => {},
        }
    } else {
        assert(forall|i: int| 0 <= i < pre.len() - 1 ==> pre.drop_first()[i] == pre[i + 1]);
        assert((pre + post).drop_first() =~= pre.drop_first() + post);
        assert((pre + post)[0] == pre[0]);
        lemma_expand_ordinary_prefix(m, pre.drop_first(), post, active);
        match spec_expand(m, post, active) {
            Ok(t) => {
                assert(pre[0] + seq![10u8] + (join_nl(pre.drop_first()) + t) =~= join_nl(pre)
                    + t);
            },
            Err(e) => {},
        }
    }
}

/// A directive line at the head splices in the fully resolved text of its
/// target, followed by one line feed, before whatever the remaining lines
/// resolve to: expansion recurses before substitution.
pub proof fn lemma_expand_directive_head(
    m: Map<Seq<u8>, Seq<u8>>,
    line: Seq<u8>,
    post: Seq<Seq<u8>>,
    active: Set<Seq<u8>>,
    t: Seq<u8>,
)
    requires
        m.dom().finite(),
        spec_target(line) == Some(t),
        !active.contains(t),
        m.contains_key(t),
    ensures
        spec_expand(m, seq![line] + post, active) == (match spec_expand(
            m,
            spec_lines(m[t]),
            active.insert(t),
        ) {
            Err(e) => Err::<Seq<u8>, SpecError>(e),
            Ok(st) => with_prefix(st + seq![10u8], spec_expand(m, post, active)),
        }),
{
    assert((seq![line] + post).drop_first() =~= post);
    assert((seq![line] + post)[0] == line);
    match spec_expand(m, spec_lines(m[t]), active.insert(t)) {
        Err(e) => {},
        Ok(st) => {
            match spec_expand(m, post, active) {
                Ok(rt) => {
                    assert(st + seq![10u8] + rt =~= (st + seq![10u8]) + rt);
                },
                Err(e) => {},
            }
        },
    }
}

/// Two registered sources whose directives name each other make `resolve`
/// fail with `Cycle` on the name re-encountered, rather than recurse forever.
/// Lines before each directive must be ordinary, else an earlier failure or
/// text would come first.
pub proof fn lemma_resolve_cycle(m: Map<Seq<u8>, Seq<u8>>, a: Seq<u8>, b: Seq<u8>, i: int, j: int)
    requires
        m.dom().finite(),
        m.contains_key(a),
        m.contains_key(b),
        a != b,
        0 <= i < spec_lines(m[a]).len(),
        spec_target(spec_lines(m[a])[i]) == Some(b),
        forall|x: int| 0 <= x < i ==> spec_target(spec_lines(m[a])[x]) is None,
        0 <= j < spec_lines(m[b]).len(),
        spec_target(spec_lines(m[b])[j]) == Some(a),
        forall|x: int| 0 <= x < j ==> spec_target(spec_lines(m[b])[x]) is None,
    ensures
        spec_resolve(m, a) == Err::<Seq<u8>, SpecError>(SpecError::Cycle(a)),
{
    let la = spec_lines(m[a]);
    let lb = spec_lines(m[b]);
    let act1 = Set::<Seq<u8>>::empty().insert(a);
    let act2 = act1.insert(b);
    let tail_a = seq![la[i]] + la.subrange(i + 1, la.len() as int);
    assert(la =~= la.subrange(0, i) + tail_a);
    assert(forall|x: int| 0 <= x < i ==> la.subrange(0, i)[x] == la[x]);
    lemma_expand_ordinary_prefix(m, la.subrange(0, i), tail_a, act1);
    lemma_expand_directive_head(m, la[i], la.subrange(i + 1, la.len() as int), act1, b);
    let tail_b = seq![lb[j]] + lb.subrange(j + 1, lb.len() as int);
    assert(lb =~= lb.subrange(0, j) + tail_b);
    assert(forall|x: int| 0 <= x < j ==> lb.subrange(0, j)[x] == lb[x]);
    lemma_expand_ordinary_prefix(m, lb.subrange(0, j), tail_b, act2);
    assert(tail_b[0] == lb[j]);
    assert(tail_b.drop_first() =~= lb.subrange(j + 1, lb.len() as int));
    assert(spec_expand(m, tail_b, act2) == Err::<Seq<u8>, SpecError>(SpecError::Cycle(a)));
    assert(spec_expand(m, lb, act2) == Err::<Seq<u8>, SpecError>(SpecError::Cycle(a)));
}

/// A directive naming an unregistered target makes `resolve` fail with
/// `Missing`, naming that target. Lines before the directive must be
/// ordinary.
pub proof fn lemma_resolve_missing(m: Map<Seq<u8>, Seq<u8>>, a: Seq<u8>, t: Seq<u8>, i: int)
    requires
        m.dom().finite(),
        m.contains_key(a),
        !m.contains_key(t),
        0 <= i < spec_lines(m[a]).len(),
        spec_target(spec_lines(m[a])[i]) == Some(t),
        forall|x: int| 0 <= x < i ==> spec_target(spec_lines(m[a])[x]) is None,
    ensures
        spec_resolve(m, a) == Err::<Seq<u8>, SpecError>(SpecError::Missing(t)),
{
    let la = spec_lines(m[a]);
    let act1 = Set::<Seq<u8>>::empty().insert(a);
    let tail_a = seq![la[i]] + la.subrange(i + 1, la.len() as int);
    assert(la =~= la.subrange(0, i) + tail_a);
    assert(forall|x: int| 0 <= x < i ==> la.subrange(0, i)[x] == la[x]);
    lemma_expand_ordinary_prefix(m, la.subrange(0, i), tail_a, act1);
    assert(tail_a[0] == la[i]);
    assert(spec_expand(m, tail_a, act1) == Err::<Seq<u8>, SpecError>(SpecError::Missing(t)));
}

} // verus!
