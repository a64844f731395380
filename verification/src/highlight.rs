//! The per-line highlight-span composer.
//!
//! A [`LineHighlighter`] takes one raw line of text (as bytes), a base style,
//! a cursor position and optional search-match ranges, and merges them into a
//! gap-free, non-overlapping sequence of styled spans that exactly covers the
//! line, expanding tab bytes to a configurable number of spaces.

use crate::util::{n_digits, num_digits, padded_number, push_decimal, push_spaces, spaces_seq};
use vstd::prelude::*;

verus! {

use ratatui::style::Style;

/// A contiguous text run (bytes) paired with a style.
pub struct Span {
    pub content: Vec<u8>,
    pub style: Style,
}

/// The mathematical value of a [`Span`].
#[verifier::ext_equal]
pub struct SpanModel {
    pub content: Seq<u8>,
    pub style: Style,
}

impl View for Span {
    type V = SpanModel;

    open spec fn view(&self) -> SpanModel {
        SpanModel { content: self.content@, style: self.style }
    }
}

/// The values of a sequence of spans.
pub open spec fn span_models(s: Seq<Span>) -> Seq<SpanModel> {
    s.map_values(|sp: Span| sp@)
}

impl Span {
    /// A copy with the same content and style.
    pub fn duplicate(&self) -> (r: Span)
        ensures
            r@ == self@,
    {
        let mut content: Vec<u8> = Vec::new();
        let mut i: usize = 0;
        while i < self.content.len()
            invariant
                i <= self.content.len(),
                content@ == self.content@.subrange(0, i as int),
            decreases self.content.len() - i,
        {
            content.push(self.content[i]);
            proof {
                assert(self.content@.subrange(0, i + 1) =~= self.content@.subrange(0, i as int).push(
                    self.content@[i as int],
                ));
            }
            i = i + 1;
        }
        proof {
            assert(content@ =~= self.content@);
        }
        Span { content, style: self.style }
    }
}

/// A sweep event at a byte offset: a highlight region begins (carrying its
/// style) or the innermost open region ends.
#[derive(Clone, Copy)]
pub enum Boundary {
    Cursor(Style),
    Search(Style),
    End,
}

impl Boundary {
    /// Tie-break precedence at equal offsets: cursor above search above end.
    pub open spec fn rank_spec(&self) -> int {
        match self {
            Boundary::Cursor(_) => 2,
            Boundary::Search(_) => 1,
            Boundary::End => 0,
        }
    }

    fn rank(&self) -> (r: u8)
        ensures
            r == self.rank_spec(),
    {
        match self {
            Boundary::Cursor(_) => 2,
            Boundary::Search(_) => 1,
            Boundary::End => 0,
        }
    }

    /// Orders two boundaries by rank alone.
    pub fn cmp(&self, other: &Boundary) -> (r: core::cmp::Ordering)
        ensures
            r == core::cmp::Ordering::Less <==> self.rank_spec() < other.rank_spec(),
            r == core::cmp::Ordering::Equal <==> self.rank_spec() == other.rank_spec(),
            r == core::cmp::Ordering::Greater <==> self.rank_spec() > other.rank_spec(),
    {
        let a = self.rank();
        let b = other.rank();
        if a < b {
            core::cmp::Ordering::Less
        } else if a == b {
            core::cmp::Ordering::Equal
        } else {
            core::cmp::Ordering::Greater
        }
    }

    /// The style a begin event carries; an end event carries none.
    pub open spec fn style_spec(&self) -> Option<Style> {
        match self {
            Boundary::Cursor(s) => Some(*s),
            Boundary::Search(s) => Some(*s),
            Boundary::End => None,
        }
    }

    pub fn style(&self) -> (r: Option<Style>)
        ensures
            r == self.style_spec(),
    {
        match self {
            Boundary::Cursor(s) => Some(*s),
            Boundary::Search(s) => Some(*s),
            Boundary::End => None,
        }
    }
}

/// Boundary order: by byte offset, ties broken by rank.
pub open spec fn bnd_le(a: (Boundary, usize), b: (Boundary, usize)) -> bool {
    a.1 < b.1 || (a.1 == b.1 && a.0.rank_spec() <= b.0.rank_spec())
}

fn bnd_le_exec(a: &(Boundary, usize), b: &(Boundary, usize)) -> (r: bool)
    ensures
        r == bnd_le(*a, *b),
{
    let rank_le = match a.0.cmp(&b.0) {
        core::cmp::Ordering::Greater => false,
        core::cmp::Ordering::Less => true,
        core::cmp::Ordering::Equal => true,
    };
    a.1 < b.1 || (a.1 == b.1 && rank_le)
}

/// `x` placed into the sorted sequence `s`, after every element it does not
/// precede (a stable insertion).
pub open spec fn insert_sorted(s: Seq<(Boundary, usize)>, x: (Boundary, usize)) -> Seq<
    (Boundary, usize),
>
    decreases s.len(),
{
    if s.len() == 0 {
        seq![x]
    } else if bnd_le(s.last(), x) {
        s.push(x)
    } else {
        insert_sorted(s.drop_last(), x).push(s.last())
    }
}

/// `s` sorted by offset, ties broken by rank, equal keys kept in order.
pub open spec fn sort_bnds(s: Seq<(Boundary, usize)>) -> Seq<(Boundary, usize)>
    decreases s.len(),
{
    if s.len() == 0 {
        s
    } else {
        insert_sorted(sort_bnds(s.drop_last()), s.last())
    }
}

fn insert_boundary(v: Vec<(Boundary, usize)>, x: (Boundary, usize)) -> (r: Vec<(Boundary, usize)>)
    ensures
        r@ == insert_sorted(v@, x),
    decreases v@.len(),
{
    let ghost v0 = v@;
    let mut v = v;
    let n = v.len();
    if n == 0 {
        v.push(x);
        proof {
            assert(v@ =~= insert_sorted(v0, x));
        }
        v
    } else {
        let last = v[n - 1];
        if bnd_le_exec(&last, &x) {
            v.push(x);
            proof {
                assert(v0.last() == last);
                assert(v@ =~= insert_sorted(v0, x));
            }
            v
        } else {
            let _ = v.pop();
            proof {
                assert(v@ =~= v0.drop_last());
            }
            let mut r = insert_boundary(v, x);
            r.push(last);
            proof {
                assert(v0.last() == last);
                assert(r@ =~= insert_sorted(v0, x));
            }
            r
        }
    }
}

fn sort_boundaries(v: Vec<(Boundary, usize)>) -> (r: Vec<(Boundary, usize)>)
    ensures
        r@ == sort_bnds(v@),
{
    let mut out: Vec<(Boundary, usize)> = Vec::new();
    let mut i: usize = 0;
    while i < v.len()
        invariant
            i <= v@.len(),
            out@ == sort_bnds(v@.subrange(0, i as int)),
        decreases v@.len() - i,
    {
        out = insert_boundary(out, v[i]);
        proof {
            assert(v@.subrange(0, i + 1).drop_last() =~= v@.subrange(0, i as int));
            assert(v@.subrange(0, i + 1).last() == v@[i as int]);
        }
        i = i + 1;
    }
    proof {
        assert(v@.subrange(0, v@.len() as int) =~= v@);
    }
    out
}

/// A UTF-8 continuation byte.
pub open spec fn is_cont(b: u8) -> bool {
    128 <= b < 192
}

/// The byte index of the `col`-th character start at or after `i`, if the
/// line has that many characters.
pub open spec fn nth_start(s: Seq<u8>, i: int, col: int) -> Option<int>
    decreases s.len() - i,
{
    if i < 0 || i >= s.len() {
        None
    } else if !is_cont(s[i]) {
        if col == 0 {
            Some(i)
        } else {
            nth_start(s, i + 1, col - 1)
        }
    } else {
        nth_start(s, i + 1, col)
    }
}

/// The first character start at or after `i`, or the end of the line.
pub open spec fn next_start(s: Seq<u8>, i: int) -> int
    decreases s.len() - i,
{
    if i < 0 {
        0
    } else if i >= s.len() {
        s.len() as int
    } else if !is_cont(s[i]) {
        i
    } else {
        next_start(s, i + 1)
    }
}

/// The number of characters in `s`: one per non-continuation byte.
pub open spec fn char_count(s: Seq<u8>) -> nat
    decreases s.len(),
{
    if s.len() == 0 {
        0
    } else {
        (if is_cont(s[0]) {
            0nat
        } else {
            1nat
        }) + char_count(s.drop_first())
    }
}

proof fn lemma_char_count_one(b: u8)
    ensures
        char_count(seq![b]) == (if is_cont(b) {
            0nat
        } else {
            1nat
        }),
{
    assert(seq![b].drop_first() =~= Seq::<u8>::empty());
    assert(char_count(Seq::<u8>::empty()) == 0);
}

pub proof fn lemma_char_count_app(s1: Seq<u8>, s2: Seq<u8>)
    ensures
        char_count(s1 + s2) == char_count(s1) + char_count(s2),
    decreases s1.len(),
{
    if s1.len() == 0 {
        assert(s1 + s2 =~= s2);
    } else {
        assert((s1 + s2).drop_first() =~= s1.drop_first() + s2);
        lemma_char_count_app(s1.drop_first(), s2);
    }
}

/// Copies `v[from..to]`.
pub(crate) fn copy_range(v: &Vec<u8>, from: usize, to: usize) -> (r: Vec<u8>)
    requires
        from <= to <= v@.len(),
    ensures
        r@ == v@.subrange(from as int, to as int),
{
    let mut out: Vec<u8> = Vec::new();
    let mut i: usize = from;
    while i < to
        invariant
            from <= i <= to <= v@.len(),
            out@ == v@.subrange(from as int, i as int),
        decreases to - i,
    {
        out.push(v[i]);
        proof {
            assert(v@.subrange(from as int, i + 1) =~= v@.subrange(from as int, i as int).push(
                v@[i as int],
            ));
        }
        i = i + 1;
    }
    out
}

/// Finds the byte range of the `col`-th character of `content`: on success
/// its start and end; otherwise how far `col` reaches past the last
/// character.
pub(crate) fn locate_char(content: &Vec<u8>, col: usize) -> (r: (bool, usize, usize, usize))
    ensures
        r.0 ==> nth_start(content@, 0, col as int) == Some(r.1 as int) && r.1 < content@.len()
            && r.2 as int == next_start(content@, r.1 + 1) && r.1 < r.2 <= content@.len(),
        !r.0 ==> nth_start(content@, 0, col as int) is None && r.3 as int == col - char_count(
            content@,
        ),
{
    let ghost s = content@;
    let n = content.len();
    let mut i: usize = 0;
    let mut rem: usize = col;
    let mut found: bool = false;
    let mut cs: usize = 0;
    proof {
        assert(s.subrange(0, 0) =~= Seq::<u8>::empty());
    }
    while i < n && !found
        invariant
            n == content@.len(),
            s == content@,
            i <= n,
            !found ==> nth_start(s, 0, col as int) == nth_start(s, i as int, rem as int) && rem
                as int == col - char_count(s.subrange(0, i as int)),
            found ==> nth_start(s, 0, col as int) == Some(cs as int) && cs < n,
        decreases n - i, (if found {
            0int
        } else {
            1int
        }),
    {
        proof {
            assert(s.subrange(0, i + 1) =~= s.subrange(0, i as int) + seq![s[i as int]]);
            lemma_char_count_app(s.subrange(0, i as int), seq![s[i as int]]);
            lemma_char_count_one(s[i as int]);
        }
        let b = content[i];
        if !(128 <= b && b < 192) {
            if rem == 0 {
                found = true;
                cs = i;
            } else {
                rem = rem - 1;
                i = i + 1;
            }
        } else {
            i = i + 1;
        }
    }
    if found {
        let mut j: usize = cs + 1;
        while j < n && 128 <= content[j] && content[j] < 192
            invariant
                n == content@.len(),
                s == content@,
                cs < n,
                cs + 1 <= j <= n,
                next_start(s, cs + 1) == next_start(s, j as int),
            decreases n - j,
        {
            j = j + 1;
        }
        (true, cs, j, 0)
    } else {
        proof {
            assert(s.subrange(0, n as int) =~= s);
        }
        (false, 0, 0, rem)
    }
}

/// `s` with every tab byte replaced by `tab` spaces.
pub open spec fn expand_tabs(s: Seq<u8>, tab: nat) -> Seq<u8>
    decreases s.len(),
{
    if s.len() == 0 {
        Seq::empty()
    } else {
        (if s[0] == 9 {
            spaces_seq(tab)
        } else {
            seq![s[0]]
        }) + expand_tabs(s.drop_first(), tab)
    }
}

proof fn lemma_expand_tabs_one(b: u8, tab: nat)
    ensures
        expand_tabs(seq![b], tab) == (if b == 9 {
            spaces_seq(tab)
        } else {
            seq![b]
        }),
{
    let s = seq![b];
    assert(s.drop_first() =~= Seq::<u8>::empty());
    assert(expand_tabs(Seq::<u8>::empty(), tab) == Seq::<u8>::empty());
    assert(expand_tabs(s, tab) == (if b == 9 {
        spaces_seq(tab)
    } else {
        seq![b]
    }) + Seq::<u8>::empty());
    if b == 9 {
        assert(spaces_seq(tab) + Seq::<u8>::empty() =~= spaces_seq(tab));
    } else {
        assert(seq![b] + Seq::<u8>::empty() =~= seq![b]);
    }
}

/// Tab expansion distributes over concatenation.
pub proof fn lemma_expand_tabs_app(s1: Seq<u8>, s2: Seq<u8>, tab: nat)
    ensures
        expand_tabs(s1 + s2, tab) == expand_tabs(s1, tab) + expand_tabs(s2, tab),
    decreases s1.len(),
{
    if s1.len() == 0 {
        assert(s1 + s2 =~= s2);
        assert(expand_tabs(s1, tab) + expand_tabs(s2, tab) =~= expand_tabs(s2, tab));
    } else {
        assert((s1 + s2).drop_first() =~= s1.drop_first() + s2);
        lemma_expand_tabs_app(s1.drop_first(), s2, tab);
        assert(expand_tabs(s1 + s2, tab) =~= expand_tabs(s1, tab) + expand_tabs(s2, tab));
    }
}

/// Expanding a tab-free slice gives the slice back unchanged.
pub proof fn lemma_expand_tabs_no_tab(s: Seq<u8>, tab: nat)
    requires
        forall|i: int| 0 <= i < s.len() ==> s[i] != 9,
    ensures
        expand_tabs(s, tab) == s,
    decreases s.len(),
{
    if s.len() > 0 {
        lemma_expand_tabs_no_tab(s.drop_first(), tab);
        assert(expand_tabs(s, tab) =~= s);
    } else {
        assert(expand_tabs(s, tab) =~= s);
    }
}

/// The bytes `line[from..to]` with each tab byte replaced by `tab_len`
/// spaces; a tab-free slice comes back as it stands.
pub fn replace_tabs(line: &Vec<u8>, from: usize, to: usize, tab_len: u8) -> (r: Vec<u8>)
    requires
        from <= to <= line@.len(),
    ensures
        r@ == expand_tabs(line@.subrange(from as int, to as int), tab_len as nat),
{
    let mut out: Vec<u8> = Vec::new();
    let mut i: usize = from;
    while i < to
        invariant
            from <= i <= to <= line@.len(),
            out@ == expand_tabs(line@.subrange(from as int, i as int), tab_len as nat),
        decreases to - i,
    {
        proof {
            assert(line@.subrange(from as int, i + 1) =~= line@.subrange(from as int, i as int)
                + seq![line@[i as int]]);
            lemma_expand_tabs_app(
                line@.subrange(from as int, i as int),
                seq![line@[i as int]],
                tab_len as nat,
            );
            lemma_expand_tabs_one(line@[i as int], tab_len as nat);
        }
        if line[i] == 9 {
            push_spaces(&mut out, tab_len as usize);
        } else {
            out.push(line[i]);
        }
        i = i + 1;
    }
    out
}

/// Sorting inserts an element without losing or inventing any.
pub proof fn lemma_insert_sorted_ms(s: Seq<(Boundary, usize)>, x: (Boundary, usize))
    ensures
        insert_sorted(s, x).to_multiset() == s.push(x).to_multiset(),
    decreases s.len(),
{
    broadcast use vstd::seq_lib::group_to_multiset_ensures;

    if s.len() == 0 {
        assert(seq![x] =~= Seq::<(Boundary, usize)>::empty().push(x));
        assert(Seq::<(Boundary, usize)>::empty().push(x).to_multiset() =~= s.push(x).to_multiset());
    } else if bnd_le(s.last(), x) {
    } else {
        let dl = s.drop_last();
        let last = s.last();
        lemma_insert_sorted_ms(dl, x);
        assert(insert_sorted(dl, x).push(last).to_multiset() == insert_sorted(
            dl,
            x,
        ).to_multiset().insert(last));
        assert(dl.push(x).to_multiset() == dl.to_multiset().insert(x));
        assert(s =~= dl.push(last));
        assert(dl.push(last).to_multiset() == dl.to_multiset().insert(last));
        assert(s.push(x).to_multiset() == s.to_multiset().insert(x));
        assert(dl.to_multiset().insert(x).insert(last) =~= dl.to_multiset().insert(last).insert(x));
        assert(insert_sorted(s, x).to_multiset() =~= s.push(x).to_multiset());
    }
}

/// A sorted boundary list holds exactly the boundaries it was given.
pub proof fn lemma_sort_bnds_ms(s: Seq<(Boundary, usize)>)
    ensures
        sort_bnds(s).to_multiset() == s.to_multiset(),
    decreases s.len(),
{
    broadcast use vstd::seq_lib::group_to_multiset_ensures;

    if s.len() > 0 {
        lemma_sort_bnds_ms(s.drop_last());
        lemma_insert_sorted_ms(sort_bnds(s.drop_last()), s.last());
        assert(s =~= s.drop_last().push(s.last()));
        assert(sort_bnds(s.drop_last()).push(s.last()).to_multiset() == sort_bnds(
            s.drop_last(),
        ).to_multiset().insert(s.last()));
        assert(s.to_multiset() == s.drop_last().to_multiset().insert(s.last()));
    }
}

/// Every offset bound carried by the boundaries survives sorting.
pub proof fn lemma_sort_bnds_bounded(b: Seq<(Boundary, usize)>, limit: nat)
    requires
        forall|k: int| 0 <= k < b.len() ==> (#[trigger] b[k]).1 <= limit,
    ensures
        forall|k: int|
            0 <= k < sort_bnds(b).len() ==> (#[trigger] sort_bnds(b)[k]).1 <= limit,
        sort_bnds(b).len() == b.len(),
{
    broadcast use vstd::seq_lib::group_to_multiset_ensures;

    lemma_sort_bnds_ms(b);
    assert forall|k: int|
        0 <= k < sort_bnds(b).len() implies (#[trigger] sort_bnds(b)[k]).1 <= limit by {
        let x = sort_bnds(b)[k];
        assert(sort_bnds(b).contains(x));
        assert(sort_bnds(b).to_multiset().count(x) > 0);
        assert(b.contains(x));
        let i = choose|i: int| 0 <= i < b.len() && b[i] == x;
        assert(b[i].1 <= limit);
    }
    assert(sort_bnds(b).len() == sort_bnds(b).to_multiset().len());
    assert(b.len() == b.to_multiset().len());
}

/// The sweep over sorted boundary events: before each event the run since
/// the previous offset is emitted in the current style (tab-expanded); a
/// begin event pushes the current style and takes over, an end event pops
/// (the base style when the stack is empty); the remainder of the line comes
/// last in whatever style is then current.
pub open spec fn sweep(
    evts: Seq<(Boundary, usize)>,
    line: Seq<u8>,
    tab: nat,
    base: Style,
    start: int,
    cur: Style,
    stack: Seq<Style>,
) -> Seq<SpanModel>
    decreases evts.len(),
{
    if evts.len() == 0 {
        if start != line.len() {
            seq![
                SpanModel {
                    content: expand_tabs(line.subrange(start, line.len() as int), tab),
                    style: cur,
                },
            ]
        } else {
            Seq::empty()
        }
    } else {
        let b = evts[0].0;
        let end = evts[0].1;
        let emitted: Seq<SpanModel> = if start < end {
            seq![
                SpanModel { content: expand_tabs(line.subrange(start, end as int), tab), style: cur },
            ]
        } else {
            Seq::empty()
        };
        match b {
            Boundary::Cursor(s) => emitted + sweep(
                evts.drop_first(),
                line,
                tab,
                base,
                end as int,
                s,
                stack.push(cur),
            ),
            Boundary::Search(s) => emitted + sweep(
                evts.drop_first(),
                line,
                tab,
                base,
                end as int,
                s,
                stack.push(cur),
            ),
            Boundary::End => {
                let ncur = if stack.len() > 0 {
                    stack.last()
                } else {
                    base
                };
                let nstack = if stack.len() > 0 {
                    stack.drop_last()
                } else {
                    stack
                };
                emitted + sweep(evts.drop_first(), line, tab, base, end as int, ncur, nstack)
            },
        }
    }
}

/// Nondecreasing by offset with rank breaking ties.
pub open spec fn sorted_bnds(s: Seq<(Boundary, usize)>) -> bool {
    forall|i: int, j: int| 0 <= i < j < s.len() ==> bnd_le(#[trigger] s[i], #[trigger] s[j])
}

proof fn lemma_insert_sorted_sorted(s: Seq<(Boundary, usize)>, x: (Boundary, usize))
    requires
        sorted_bnds(s),
    ensures
        sorted_bnds(insert_sorted(s, x)),
    decreases s.len(),
{
    broadcast use vstd::seq_lib::group_to_multiset_ensures;

    if s.len() == 0 {
    } else if bnd_le(s.last(), x) {
        assert forall|i: int, j: int|
            0 <= i < j < s.push(x).len() implies bnd_le(s.push(x)[i], s.push(x)[j]) by {
            if j < s.len() {
            } else {
                if i < s.len() - 1 {
                    assert(bnd_le(s[i], s.last()));
                }
            }
        }
    } else {
        let dl = s.drop_last();
        let last = s.last();
        assert(sorted_bnds(dl)) by {
            assert forall|i: int, j: int| 0 <= i < j < dl.len() implies bnd_le(dl[i], dl[j]) by {
                assert(dl[i] == s[i]);
                assert(dl[j] == s[j]);
            }
        }
        lemma_insert_sorted_sorted(dl, x);
        lemma_insert_sorted_ms(dl, x);
        let r0 = insert_sorted(dl, x);
        assert forall|i: int, j: int|
            0 <= i < j < r0.push(last).len() implies bnd_le(r0.push(last)[i], r0.push(last)[j]) by {
            if j < r0.len() {
            } else {
                let e = r0[i];
                assert(r0.contains(e));
                assert(r0.to_multiset().count(e) > 0);
                assert(dl.push(x).to_multiset().count(e) > 0);
                assert(dl.push(x).contains(e));
                let t = choose|t: int| 0 <= t < dl.push(x).len() && dl.push(x)[t] == e;
                if t < dl.len() {
                    assert(dl[t] == s[t]);
                    assert(bnd_le(s[t], last));
                } else {
                    assert(e == x);
                    assert(!bnd_le(last, x));
                    assert(bnd_le(x, last));
                }
            }
        }
    }
}

/// The sorted boundary list really is sorted by (offset, rank).
pub proof fn lemma_sort_bnds_sorted(s: Seq<(Boundary, usize)>)
    ensures
        sorted_bnds(sort_bnds(s)),
    decreases s.len(),
{
    if s.len() > 0 {
        lemma_sort_bnds_sorted(s.drop_last());
        lemma_insert_sorted_sorted(sort_bnds(s.drop_last()), s.last());
    }
}

/// The concatenated text of a span sequence.
pub open spec fn concat_contents(spans: Seq<SpanModel>) -> Seq<u8>
    decreases spans.len(),
{
    if spans.len() == 0 {
        Seq::empty()
    } else {
        spans[0].content + concat_contents(spans.drop_first())
    }
}

proof fn lemma_concat_contents_one(sp: SpanModel)
    ensures
        concat_contents(seq![sp]) == sp.content,
{
    assert(seq![sp].drop_first() =~= Seq::<SpanModel>::empty());
    assert(concat_contents(Seq::<SpanModel>::empty()) == Seq::<u8>::empty());
    assert(seq![sp][0] == sp);
    assert(concat_contents(seq![sp]) == sp.content + concat_contents(seq![sp].drop_first()));
    assert(sp.content + Seq::<u8>::empty() =~= sp.content);
}

pub proof fn lemma_concat_contents_app(s1: Seq<SpanModel>, s2: Seq<SpanModel>)
    ensures
        concat_contents(s1 + s2) == concat_contents(s1) + concat_contents(s2),
    decreases s1.len(),
{
    if s1.len() == 0 {
        assert(s1 + s2 =~= s2);
        assert(concat_contents(s1) + concat_contents(s2) =~= concat_contents(s2));
    } else {
        assert((s1 + s2).drop_first() =~= s1.drop_first() + s2);
        lemma_concat_contents_app(s1.drop_first(), s2);
        assert((s1 + s2)[0] == s1[0]);
        assert(concat_contents(s1 + s2) =~= concat_contents(s1) + concat_contents(s2));
    }
}

/// The sweep covers `line[start..]` exactly: concatenating what it emits
/// gives the tab-expanded remainder of the line, whatever the styles do.
proof fn lemma_sweep_coverage(
    evts: Seq<(Boundary, usize)>,
    line: Seq<u8>,
    tab: nat,
    base: Style,
    start: int,
    cur: Style,
    stack: Seq<Style>,
)
    requires
        0 <= start <= line.len(),
        forall|i: int| 0 <= i < evts.len() ==> start <= (#[trigger] evts[i]).1 <= line.len(),
        sorted_bnds(evts),
    ensures
        concat_contents(sweep(evts, line, tab, base, start, cur, stack)) == expand_tabs(
            line.subrange(start, line.len() as int),
            tab,
        ),
    decreases evts.len(),
{
    if evts.len() == 0 {
        if start != line.len() {
            let sp = SpanModel {
                content: expand_tabs(line.subrange(start, line.len() as int), tab),
                style: cur,
            };
            lemma_concat_contents_one(sp);
        } else {
            assert(line.subrange(start, line.len() as int) =~= Seq::<u8>::empty());
        }
    } else {
        let end = evts[0].1 as int;
        let rest = evts.drop_first();
        assert(start <= end <= line.len());
        assert forall|i: int|
            0 <= i < rest.len() implies end <= (#[trigger] rest[i]).1 <= line.len() by {
            assert(rest[i] == evts[i + 1]);
            assert(bnd_le(evts[0], evts[i + 1]));
        }
        assert(sorted_bnds(rest)) by {
            assert forall|i: int, j: int|
                0 <= i < j < rest.len() implies bnd_le(rest[i], rest[j]) by {
                assert(rest[i] == evts[i + 1]);
                assert(rest[j] == evts[j + 1]);
            }
        }
        let b = evts[0].0;
        let ncur = match b {
            Boundary::Cursor(s) => s,
            Boundary::Search(s) => s,
            Boundary::End => if stack.len() > 0 {
                stack.last()
            } else {
                base
            },
        };
        let nstack = match b {
            Boundary::Cursor(s) => stack.push(cur),
            Boundary::Search(s) => stack.push(cur),
            Boundary::End => if stack.len() > 0 {
                stack.drop_last()
            } else {
                stack
            },
        };
        lemma_sweep_coverage(rest, line, tab, base, end, ncur, nstack);
        let restspans = sweep(rest, line, tab, base, end, ncur, nstack);
        assert(sweep(evts, line, tab, base, start, cur, stack) == (if start < end {
            seq![
                SpanModel { content: expand_tabs(line.subrange(start, end), tab), style: cur },
            ]
        } else {
            Seq::<SpanModel>::empty()
        }) + restspans);
        if start < end {
            let sp = SpanModel { content: expand_tabs(line.subrange(start, end), tab), style: cur };
            lemma_concat_contents_app(seq![sp], restspans);
            lemma_concat_contents_one(sp);
            assert(line.subrange(start, line.len() as int) =~= line.subrange(start, end)
                + line.subrange(end, line.len() as int));
            lemma_expand_tabs_app(
                line.subrange(start, end),
                line.subrange(end, line.len() as int),
                tab,
            );
        } else {
            assert(start == end);
            assert(Seq::<SpanModel>::empty() + restspans =~= restspans);
        }
    }
}

/// Coverage: concatenating the span contents a finalized highlighter emits
/// after its prefix spans reproduces the tab-expanded line exactly — no
/// gaps, no overlaps, no duplication — followed by the single cursor space
/// when the cursor sits past the end of the line.
pub proof fn lemma_composed_spans_coverage(
    line: Seq<u8>,
    bnds: Seq<(Boundary, usize)>,
    base: Style,
    cursor_style: Style,
    cursor_at_end: bool,
    tab: nat,
)
    requires
        forall|k: int| 0 <= k < bnds.len() ==> (#[trigger] bnds[k]).1 <= line.len(),
    ensures
        concat_contents(composed_spans(line, bnds, base, cursor_style, cursor_at_end, tab))
            == expand_tabs(line, tab) + (if cursor_at_end {
            seq![32u8]
        } else {
            Seq::<u8>::empty()
        }),
{
    let tail: Seq<SpanModel> = if cursor_at_end {
        seq![SpanModel { content: seq![32u8], style: cursor_style }]
    } else {
        Seq::empty()
    };
    let tailbytes: Seq<u8> = if cursor_at_end {
        seq![32u8]
    } else {
        Seq::empty()
    };
    assert(concat_contents(tail) == tailbytes) by {
        if cursor_at_end {
            lemma_concat_contents_one(SpanModel { content: seq![32u8], style: cursor_style });
            assert(tail =~= seq![SpanModel { content: seq![32u8], style: cursor_style }]);
        } else {
            assert(concat_contents(tail) =~= tailbytes);
        }
    }
    if bnds.len() == 0 {
        let sp = SpanModel { content: expand_tabs(line, tab), style: base };
        lemma_concat_contents_app(seq![sp], tail);
        lemma_concat_contents_one(sp);
        assert(concat_contents(composed_spans(line, bnds, base, cursor_style, cursor_at_end, tab))
            =~= expand_tabs(line, tab) + tailbytes);
    } else {
        let sorted = sort_bnds(bnds);
        lemma_sort_bnds_sorted(bnds);
        lemma_sort_bnds_bounded(bnds, line.len());
        assert forall|i: int|
            0 <= i < sorted.len() implies 0 <= (#[trigger] sorted[i]).1 <= line.len() by {
            assert(sorted[i].1 <= line.len());
        }
        lemma_sweep_coverage(sorted, line, tab, base, 0, base, Seq::empty());
        lemma_concat_contents_app(sweep(sorted, line, tab, base, 0, base, Seq::empty()), tail);
        assert(line.subrange(0, line.len() as int) =~= line);
        assert(concat_contents(composed_spans(line, bnds, base, cursor_style, cursor_at_end, tab))
            =~= expand_tabs(line, tab) + tailbytes);
    }
}

/// The byte extents of the runs the sweep emits: each emitted span covers
/// `line[start..end)` in the recorded style.
pub open spec fn sweep_segments(
    evts: Seq<(Boundary, usize)>,
    line: Seq<u8>,
    base: Style,
    start: int,
    cur: Style,
    stack: Seq<Style>,
) -> Seq<(int, int, Style)>
    decreases evts.len(),
{
    if evts.len() == 0 {
        if start != line.len() {
            seq![(start, line.len() as int, cur)]
        } else {
            Seq::empty()
        }
    } else {
        let end = evts[0].1 as int;
        let emitted: Seq<(int, int, Style)> = if start < end {
            seq![(start, end, cur)]
        } else {
            Seq::empty()
        };
        match evts[0].0 {
            Boundary::Cursor(s) => emitted + sweep_segments(
                evts.drop_first(),
                line,
                base,
                end,
                s,
                stack.push(cur),
            ),
            Boundary::Search(s) => emitted + sweep_segments(
                evts.drop_first(),
                line,
                base,
                end,
                s,
                stack.push(cur),
            ),
            Boundary::End => {
                let ncur = if stack.len() > 0 {
                    stack.last()
                } else {
                    base
                };
                let nstack = if stack.len() > 0 {
                    stack.drop_last()
                } else {
                    stack
                };
                emitted + sweep_segments(evts.drop_first(), line, base, end, ncur, nstack)
            },
        }
    }
}

/// Each emitted span is its segment's slice of the line, tab-expanded, in
/// the segment's style.
pub proof fn lemma_sweep_is_segments(
    evts: Seq<(Boundary, usize)>,
    line: Seq<u8>,
    tab: nat,
    base: Style,
    start: int,
    cur: Style,
    stack: Seq<Style>,
)
    ensures
        sweep(evts, line, tab, base, start, cur, stack) == sweep_segments(
            evts,
            line,
            base,
            start,
            cur,
            stack,
        ).map_values(
            |t: (int, int, Style)|
                SpanModel { content: expand_tabs(line.subrange(t.0, t.1), tab), style: t.2 },
        ),
    decreases evts.len(),
{
    let f = |t: (int, int, Style)|
        SpanModel { content: expand_tabs(line.subrange(t.0, t.1), tab), style: t.2 };
    if evts.len() == 0 {
        assert(sweep(evts, line, tab, base, start, cur, stack) =~= sweep_segments(
            evts,
            line,
            base,
            start,
            cur,
            stack,
        ).map_values(f));
    } else {
        let end = evts[0].1 as int;
        let rest = evts.drop_first();
        let ncur = match evts[0].0 {
            Boundary::Cursor(s) => s,
            Boundary::Search(s) => s,
            Boundary::End => if stack.len() > 0 {
                stack.last()
            } else {
                base
            },
        };
        let nstack = match evts[0].0 {
            Boundary::Cursor(s) => stack.push(cur),
            Boundary::Search(s) => stack.push(cur),
            Boundary::End => if stack.len() > 0 {
                stack.drop_last()
            } else {
                stack
            },
        };
        lemma_sweep_is_segments(rest, line, tab, base, end, ncur, nstack);
        assert(sweep(evts, line, tab, base, start, cur, stack) =~= sweep_segments(
            evts,
            line,
            base,
            start,
            cur,
            stack,
        ).map_values(f));
    }
}

/// The segments sit in order inside `line[start..]`, pairwise disjoint.
proof fn lemma_segments_chain(
    evts: Seq<(Boundary, usize)>,
    line: Seq<u8>,
    base: Style,
    start: int,
    cur: Style,
    stack: Seq<Style>,
)
    requires
        0 <= start <= line.len(),
        forall|i: int| 0 <= i < evts.len() ==> start <= (#[trigger] evts[i]).1 <= line.len(),
        sorted_bnds(evts),
    ensures
        forall|i: int|
            0 <= i < sweep_segments(evts, line, base, start, cur, stack).len() ==> start <= (
            #[trigger] sweep_segments(evts, line, base, start, cur, stack)[i]).0 && sweep_segments(
                evts,
                line,
                base,
                start,
                cur,
                stack,
            )[i].0 < sweep_segments(evts, line, base, start, cur, stack)[i].1 <= line.len(),
        forall|i: int, j: int|
            0 <= i < j < sweep_segments(evts, line, base, start, cur, stack).len()
                ==> (#[trigger] sweep_segments(evts, line, base, start, cur, stack)[i]).1 <= (
            #[trigger] sweep_segments(evts, line, base, start, cur, stack)[j]).0,
    decreases evts.len(),
{
    let segs = sweep_segments(evts, line, base, start, cur, stack);
    if evts.len() == 0 {
    } else {
        let end = evts[0].1 as int;
        let rest = evts.drop_first();
        assert(start <= end <= line.len());
        assert forall|i: int|
            0 <= i < rest.len() implies end <= (#[trigger] rest[i]).1 <= line.len() by {
            assert(rest[i] == evts[i + 1]);
            assert(bnd_le(evts[0], evts[i + 1]));
        }
        assert(sorted_bnds(rest)) by {
            assert forall|i: int, j: int|
                0 <= i < j < rest.len() implies bnd_le(rest[i], rest[j]) by {
                assert(rest[i] == evts[i + 1]);
                assert(rest[j] == evts[j + 1]);
            }
        }
        let ncur = match evts[0].0 {
            Boundary::Cursor(s) => s,
            Boundary::Search(s) => s,
            Boundary::End => if stack.len() > 0 {
                stack.last()
            } else {
                base
            },
        };
        let nstack = match evts[0].0 {
            Boundary::Cursor(s) => stack.push(cur),
            Boundary::Search(s) => stack.push(cur),
            Boundary::End => if stack.len() > 0 {
                stack.drop_last()
            } else {
                stack
            },
        };
        lemma_segments_chain(rest, line, base, end, ncur, nstack);
        let restsegs = sweep_segments(rest, line, base, end, ncur, nstack);
        if start < end {
            assert(segs =~= seq![(start, end, cur)] + restsegs);
        } else {
            assert(start == end);
            assert(segs =~= restsegs);
        }
    }
}

/// Once the cursor's begin event is reached and no other event interrupts
/// its character range, the sweep emits that whole range as one run in the
/// cursor's style.
proof fn lemma_sweep_cursor_segment(
    evts: Seq<(Boundary, usize)>,
    line: Seq<u8>,
    base: Style,
    start: int,
    cur: Style,
    stack: Seq<Style>,
    k: int,
    cs: usize,
    ce: usize,
    cst: Style,
)
    requires
        sorted_bnds(evts),
        0 <= k < evts.len(),
        evts[k].0 == Boundary::Cursor(cst),
        evts[k].1 == cs,
        forall|j: int| k < j < evts.len() ==> (#[trigger] evts[j]).1 > cs,
        forall|j: int| 0 <= j < evts.len() ==> !(cs < (#[trigger] evts[j]).1 < ce),
        exists|j: int| k < j < evts.len() && (#[trigger] evts[j]).1 == ce,
        cs < ce,
        start <= cs,
    ensures
        sweep_segments(evts, line, base, start, cur, stack).contains((cs as int, ce as int, cst)),
    decreases evts.len(),
{
    let segs = sweep_segments(evts, line, base, start, cur, stack);
    let end = evts[0].1 as int;
    let rest = evts.drop_first();
    let emitted: Seq<(int, int, Style)> = if start < end {
        seq![(start, end, cur)]
    } else {
        Seq::empty()
    };
    assert(rest.len() == evts.len() - 1);
    assert(sorted_bnds(rest)) by {
        assert forall|i: int, j: int|
            0 <= i < j < rest.len() implies bnd_le(rest[i], rest[j]) by {
            assert(rest[i] == evts[i + 1]);
            assert(rest[j] == evts[j + 1]);
        }
    }
    if k == 0 {
        assert(end == cs);
        let jw = choose|j: int| 0 < j < evts.len() && (#[trigger] evts[j]).1 == ce;
        assert(rest[jw - 1] == evts[jw]);
        assert(rest.len() > 0);
        assert(rest[0] == evts[1]);
        assert(rest[0].1 > cs);
        assert(!(cs < rest[0].1 < ce));
        assert(rest[0].1 >= ce);
        assert(bnd_le(evts[1], evts[jw]) || jw == 1);
        assert(rest[0].1 <= ce);
        let stack1 = stack.push(cur);
        let segs1 = sweep_segments(rest, line, base, cs as int, cst, stack1);
        assert(segs == emitted + segs1);
        let end1 = rest[0].1 as int;
        assert(end1 == ce);
        assert(segs1[0] == (cs as int, ce as int, cst));
        assert(segs[emitted.len() as int] == (cs as int, ce as int, cst));
        assert(segs.contains((cs as int, ce as int, cst)));
    } else {
        assert(bnd_le(evts[0], evts[k]));
        assert(end <= cs);
        let ncur = match evts[0].0 {
            Boundary::Cursor(s) => s,
            Boundary::Search(s) => s,
            Boundary::End => if stack.len() > 0 {
                stack.last()
            } else {
                base
            },
        };
        let nstack = match evts[0].0 {
            Boundary::Cursor(s) => stack.push(cur),
            Boundary::Search(s) => stack.push(cur),
            Boundary::End => if stack.len() > 0 {
                stack.drop_last()
            } else {
                stack
            },
        };
        assert(rest[k - 1] == evts[k]);
        assert forall|j: int| k - 1 < j < rest.len() implies (#[trigger] rest[j]).1 > cs by {
            assert(rest[j] == evts[j + 1]);
        }
        assert forall|j: int| 0 <= j < rest.len() implies !(cs < (#[trigger] rest[j]).1 < ce) by {
            assert(rest[j] == evts[j + 1]);
        }
        let jw = choose|j: int| k < j < evts.len() && (#[trigger] evts[j]).1 == ce;
        assert(rest[jw - 1] == evts[jw]);
        assert(k - 1 < jw - 1 < rest.len() && rest[jw - 1].1 == ce);
        lemma_sweep_cursor_segment(rest, line, base, end, ncur, nstack, k - 1, cs, ce, cst);
        let segs1 = sweep_segments(rest, line, base, end, ncur, nstack);
        assert(segs == emitted + segs1);
        let iw = choose|i: int| 0 <= i < segs1.len() && segs1[i] == (cs as int, ce as int, cst);
        assert(segs[emitted.len() + iw] == (cs as int, ce as int, cst));
        assert(segs.contains((cs as int, ce as int, cst)));
    }
}

proof fn lemma_count_unique_idx(s: Seq<(Boundary, usize)>, x: (Boundary, usize), c: int)
    requires
        0 <= c < s.len(),
        s[c] == x,
        forall|i: int| 0 <= i < s.len() && i != c ==> s[i] != x,
    ensures
        s.to_multiset().count(x) == 1,
    decreases s.len(),
{
    broadcast use vstd::seq_lib::group_to_multiset_ensures;

    let dl = s.drop_last();
    let last = s.last();
    assert(s =~= dl.push(last));
    assert(s.to_multiset() == dl.to_multiset().insert(last));
    if c == s.len() - 1 {
        assert(forall|i: int| 0 <= i < dl.len() ==> dl[i] == s[i] && #[trigger] dl[i] != x);
        assert(!dl.contains(x));
        assert(dl.to_multiset().count(x) == 0);
        assert(last == x);
    } else {
        assert(dl[c] == x);
        assert forall|i: int| 0 <= i < dl.len() && i != c implies dl[i] != x by {
            assert(dl[i] == s[i]);
        }
        lemma_count_unique_idx(dl, x, c);
        assert(last != x);
    }
}

proof fn lemma_two_indices_count_ge_two(s: Seq<(Boundary, usize)>, a: int, b: int)
    requires
        0 <= a < b < s.len(),
        s[a] == s[b],
    ensures
        s.to_multiset().count(s[a]) >= 2,
{
    broadcast use vstd::seq_lib::group_to_multiset_ensures;

    let r = s.remove(a);
    assert(r.to_multiset() == s.to_multiset().remove(s[a]));
    assert(r[b - 1] == s[b]);
    assert(r.contains(s[a]));
    assert(r.to_multiset().count(s[a]) > 0);
}

/// Priority: wherever the cursor's highlighted byte range and a search
/// match's range overlap, the span emitted for that byte offset carries the
/// cursor style — the cursor is always the topmost highlight. Stated for a
/// boundary list holding one cursor begin for `[cs, ce)`, a matching end,
/// and no other event cutting into that range (search ranges never split a
/// character, so their offsets fall outside an open character range).
pub proof fn lemma_cursor_wins_where_covered(
    line: Seq<u8>,
    bnds: Seq<(Boundary, usize)>,
    base: Style,
    tab: nat,
    cst: Style,
    c: int,
    cs: usize,
    ce: usize,
)
    requires
        forall|k: int| 0 <= k < bnds.len() ==> (#[trigger] bnds[k]).1 <= line.len(),
        0 <= c < bnds.len(),
        bnds[c] == (Boundary::Cursor(cst), cs),
        forall|k: int|
            0 <= k < bnds.len() && k != c ==> (#[trigger] bnds[k]).0.rank_spec() != 2,
        bnds.contains((Boundary::End, ce)),
        forall|k: int| 0 <= k < bnds.len() ==> !(cs < (#[trigger] bnds[k]).1 < ce),
        cs < ce,
    ensures
        forall|i: int|
            (0 <= i < sweep_segments(sort_bnds(bnds), line, base, 0, base, Seq::empty()).len()
                && (#[trigger] sweep_segments(sort_bnds(bnds), line, base, 0, base, Seq::empty())[i]).0
                < ce && sweep_segments(sort_bnds(bnds), line, base, 0, base, Seq::empty())[i].1
                > cs) ==> sweep_segments(sort_bnds(bnds), line, base, 0, base, Seq::empty())[i].2
                == cst && sweep(sort_bnds(bnds), line, tab, base, 0, base, Seq::empty())[i].style
                == cst,
{
    broadcast use vstd::seq_lib::group_to_multiset_ensures;

    let sorted = sort_bnds(bnds);
    let evt = (Boundary::Cursor(cst), cs);
    lemma_sort_bnds_sorted(bnds);
    lemma_sort_bnds_ms(bnds);
    lemma_sort_bnds_bounded(bnds, line.len());
    lemma_count_unique_idx(bnds, evt, c);
    assert(bnds.contains(evt));
    assert(sorted.to_multiset().count(evt) == 1);
    assert(sorted.contains(evt));
    let k0 = choose|k0: int| 0 <= k0 < sorted.len() && sorted[k0] == evt;

    assert forall|j: int| 0 <= j < sorted.len() && j != k0 implies sorted[j] != evt by {
        if sorted[j] == evt {
            if j < k0 {
                lemma_two_indices_count_ge_two(sorted, j, k0);
            } else {
                lemma_two_indices_count_ge_two(sorted, k0, j);
            }
        }
    }
    assert forall|j: int|
        0 <= j < sorted.len() && (#[trigger] sorted[j]).0.rank_spec() == 2 implies sorted[j]
        == evt by {
        assert(sorted.contains(sorted[j]));
        assert(sorted.to_multiset().count(sorted[j]) > 0);
        assert(bnds.contains(sorted[j]));
        let i = choose|i: int| 0 <= i < bnds.len() && bnds[i] == sorted[j];
        assert(i == c);
    }
    assert forall|j: int| k0 < j < sorted.len() implies (#[trigger] sorted[j]).1 > cs by {
        assert(bnd_le(sorted[k0], sorted[j]));
        if sorted[j].1 == cs {
            assert(sorted[j].0.rank_spec() >= 2);
            assert(sorted[j].0.rank_spec() == 2) by {
                match sorted[j].0 {
                    Boundary::Cursor(_) => {},
                    Boundary::Search(_) => {},
                    Boundary::End => {},
                }
            }
            assert(sorted[j] == evt);
            assert(false);
        }
    }
    assert forall|j: int| 0 <= j < sorted.len() implies !(cs < (#[trigger] sorted[j]).1 < ce) by {
        assert(sorted.contains(sorted[j]));
        assert(sorted.to_multiset().count(sorted[j]) > 0);
        assert(bnds.contains(sorted[j]));
        let i = choose|i: int| 0 <= i < bnds.len() && bnds[i] == sorted[j];
        assert(bnds[i].1 == sorted[j].1);
    }
    let endevt = (Boundary::End, ce);
    assert(bnds.to_multiset().count(endevt) > 0);
    assert(sorted.to_multiset().count(endevt) > 0);
    assert(sorted.contains(endevt));
    let jce = choose|j: int| 0 <= j < sorted.len() && sorted[j] == endevt;
    assert(jce > k0) by {
        if jce < k0 {
            assert(bnd_le(sorted[jce], sorted[k0]));
            assert(false);
        }
        if jce == k0 {
            assert(false);
        }
    }
    assert(exists|j: int| k0 < j < sorted.len() && (#[trigger] sorted[j]).1 == ce) by {
        assert(sorted[jce].1 == ce);
    }
    lemma_sweep_cursor_segment(
        sorted,
        line,
        base,
        0,
        base,
        Seq::empty(),
        k0,
        cs,
        ce,
        cst,
    );
    lemma_segments_chain(sorted, line, base, 0, base, Seq::empty());
    lemma_sweep_is_segments(sorted, line, tab, base, 0, base, Seq::empty());
    let segs = sweep_segments(sorted, line, base, 0, base, Seq::empty());
    let si = choose|si: int| 0 <= si < segs.len() && segs[si] == (cs as int, ce as int, cst);
    assert forall|i: int|
        0 <= i < segs.len() && (#[trigger] segs[i]).0 < ce && segs[i].1 > cs implies segs[i].2
        == cst && sweep(sorted, line, tab, base, 0, base, Seq::empty())[i].style == cst by {
        if i < si {
            assert(segs[i].1 <= segs[si].0);
            assert(false);
        }
        if i > si {
            assert(segs[si].1 <= segs[i].0);
            assert(false);
        }
        assert(i == si);
    }
}

/// The begin/end event pairs of the non-empty search matches, in order.
pub open spec fn search_events(ms: Seq<(usize, usize)>, st: Style) -> Seq<(Boundary, usize)>
    decreases ms.len(),
{
    if ms.len() == 0 {
        Seq::empty()
    } else {
        (if ms[0].0 != ms[0].1 {
            seq![(Boundary::Search(st), ms[0].0), (Boundary::End, ms[0].1)]
        } else {
            Seq::empty()
        }) + search_events(ms.drop_first(), st)
    }
}

/// The line-number prefix text: the row number (1-based) right-aligned to
/// the digit width of the largest line number, followed by one space.
pub open spec fn lnum_content(row: nat, lnum_len: nat) -> Seq<u8> {
    padded_number(row + 1, lnum_len)
}

/// The spans a finalized highlighter emits after its accumulated prefix
/// spans: with no boundary events the whole line in the base style, else the
/// sweep over the sorted events; a trailing single-space cursor span when
/// the cursor sits past the end of the line.
pub open spec fn composed_spans(
    line: Seq<u8>,
    bnds: Seq<(Boundary, usize)>,
    base: Style,
    cursor_style: Style,
    cursor_at_end: bool,
    tab: nat,
) -> Seq<SpanModel> {
    (if bnds.len() == 0 {
        seq![SpanModel { content: expand_tabs(line, tab), style: base }]
    } else {
        sweep(sort_bnds(bnds), line, tab, base, 0, base, Seq::empty())
    }) + (if cursor_at_end {
        seq![SpanModel { content: seq![32u8], style: cursor_style }]
    } else {
        Seq::empty()
    })
}

pub proof fn lemma_span_models_push(s: Seq<Span>, x: Span)
    ensures
        span_models(s.push(x)) == span_models(s).push(x@),
{
    assert(span_models(s.push(x)) =~= span_models(s).push(x@));
}

/// Composes one line of text with a cursor highlight and optional search
/// highlights into an ordered sequence of styled spans covering the line.
pub struct LineHighlighter {
    pub line: Vec<u8>,
    pub spans: Vec<Span>,
    pub boundaries: Vec<(Boundary, usize)>,
    pub style_begin: Style,
    pub cursor_at_end: bool,
    pub cursor_style: Style,
    pub tab_len: u8,
}

impl LineHighlighter {
    /// Every boundary offset stays within the line.
    pub open spec fn wf(self) -> bool {
        forall|k: int|
            0 <= k < self.boundaries@.len() ==> (#[trigger] self.boundaries@[k]).1
                <= self.line@.len()
    }

    pub fn new(line: Vec<u8>, cursor_style: Style, tab_len: u8) -> (r: LineHighlighter)
        ensures
            r.line@ == line@,
            r.spans@.len() == 0,
            r.boundaries@.len() == 0,
            r.cursor_at_end == false,
            r.cursor_style == cursor_style,
            r.tab_len == tab_len,
            r.style_begin == crate::style::default_style_of(()),
            r.wf(),
    {
        LineHighlighter {
            line,
            spans: Vec::new(),
            boundaries: Vec::new(),
            style_begin: crate::style::default_style(),
            cursor_at_end: false,
            cursor_style,
            tab_len,
        }
    }

    /// Prepends the right-aligned line-number span for `row` (0-based) padded
    /// to the digit width `lnum_len`.
    pub fn line_number(&mut self, row: usize, lnum_len: u8, style: Style)
        requires
            row < usize::MAX,
            n_digits((row + 1) as nat) <= lnum_len as nat,
        ensures
            span_models(final(self).spans@) == span_models(old(self).spans@).push(
                SpanModel { content: lnum_content(row as nat, lnum_len as nat), style },
            ),
            final(self).line@ == old(self).line@,
            final(self).boundaries@ == old(self).boundaries@,
            final(self).style_begin == old(self).style_begin,
            final(self).cursor_at_end == old(self).cursor_at_end,
            final(self).cursor_style == old(self).cursor_style,
            final(self).tab_len == old(self).tab_len,
    {
        let nd = num_digits(row + 1);
        let pad = lnum_len as usize - nd;
        let mut content: Vec<u8> = Vec::new();
        push_spaces(&mut content, pad);
        push_decimal(&mut content, row + 1);
        content.push(32u8);
        proof {
            assert(content@ =~= lnum_content(row as nat, lnum_len as nat));
        }
        let s = Span { content, style };
        proof {
            lemma_span_models_push(self.spans@, s);
        }
        self.spans.push(s);
    }

    /// Appends caller-supplied prefix spans verbatim.
    pub fn push_spans(&mut self, other: Vec<Span>)
        ensures
            final(self).spans@ == old(self).spans@ + other@,
            final(self).line@ == old(self).line@,
            final(self).boundaries@ == old(self).boundaries@,
            final(self).style_begin == old(self).style_begin,
            final(self).cursor_at_end == old(self).cursor_at_end,
            final(self).cursor_style == old(self).cursor_style,
            final(self).tab_len == old(self).tab_len,
    {
        let mut o = other;
        self.spans.append(&mut o);
    }

    /// Marks the cursor at character column `cursor_col` and sets the base
    /// style of the line: the character's byte range gets a begin/end pair in
    /// the cursor style; a column at or past the line's character count sets
    /// the cursor-at-end flag instead.
    pub fn cursor_line(&mut self, cursor_col: usize, style: Style)
        ensures
            final(self).style_begin == style,
            final(self).line@ == old(self).line@,
            final(self).spans@ == old(self).spans@,
            final(self).cursor_style == old(self).cursor_style,
            final(self).tab_len == old(self).tab_len,
            match nth_start(old(self).line@, 0, cursor_col as int) {
                Some(cs) => final(self).boundaries@ == old(self).boundaries@ + seq![
                    (Boundary::Cursor(old(self).cursor_style), cs as usize),
                    (Boundary::End, next_start(old(self).line@, cs + 1) as usize),
                ] && final(self).cursor_at_end == old(self).cursor_at_end,
                None => final(self).boundaries@ == old(self).boundaries@
                    && final(self).cursor_at_end == true,
            },
            old(self).wf() ==> final(self).wf(),
    {
        let ghost s = self.line@;
        let n = self.line.len();
        let mut i: usize = 0;
        let mut rem: usize = cursor_col;
        let mut found: bool = false;
        let mut cs: usize = 0;
        while i < n && !found
            invariant
                *self == *old(self),
                n == self.line@.len(),
                s == self.line@,
                i <= n,
                !found ==> nth_start(s, 0, cursor_col as int) == nth_start(s, i as int, rem as int),
                found ==> nth_start(s, 0, cursor_col as int) == Some(cs as int) && cs < n,
            decreases n - i, (if found { 0int } else { 1int }),
        {
            let b = self.line[i];
            if !(128 <= b && b < 192) {
                if rem == 0 {
                    found = true;
                    cs = i;
                } else {
                    rem = rem - 1;
                    i = i + 1;
                }
            } else {
                i = i + 1;
            }
        }
        if found {
            let mut j = cs + 1;
            while j < n && 128 <= self.line[j] && self.line[j] < 192
                invariant
                    *self == *old(self),
                    n == self.line@.len(),
                    s == self.line@,
                    cs < n,
                    cs + 1 <= j <= n,
                    next_start(s, cs + 1) == next_start(s, j as int),
                decreases n - j,
            {
                j = j + 1;
            }
            let cstyle = self.cursor_style;
            self.boundaries.push((Boundary::Cursor(cstyle), cs));
            self.boundaries.push((Boundary::End, j));
            self.style_begin = style;
            proof {
                assert(self.boundaries@ =~= old(self).boundaries@ + seq![
                    (Boundary::Cursor(old(self).cursor_style), cs as usize),
                    (Boundary::End, next_start(old(self).line@, cs + 1) as usize),
                ]);
            }
        } else {
            self.cursor_at_end = true;
            self.style_begin = style;
        }
    }

    /// Adds a begin/end boundary pair in `style` for each non-empty search
    /// match range.
    #[verifier::loop_isolation(false)]
    pub fn search(&mut self, matches: Vec<(usize, usize)>, style: Style)
        requires
            forall|k: int|
                0 <= k < matches@.len() ==> (#[trigger] matches@[k]).0 <= old(self).line@.len()
                    && matches@[k].1 <= old(self).line@.len(),
        ensures
            final(self).boundaries@ == old(self).boundaries@ + search_events(matches@, style),
            final(self).line@ == old(self).line@,
            final(self).spans@ == old(self).spans@,
            final(self).style_begin == old(self).style_begin,
            final(self).cursor_at_end == old(self).cursor_at_end,
            final(self).cursor_style == old(self).cursor_style,
            final(self).tab_len == old(self).tab_len,
            old(self).wf() ==> final(self).wf(),
    {
        let ghost ms = matches@;
        let ghost b0 = self.boundaries@;
        proof {
            assert(ms.subrange(0, ms.len() as int) =~= ms);
        }
        let mut k: usize = 0;
        while k < matches.len()
            invariant
                k <= ms.len(),
                ms == matches@,
                self.line@ == old(self).line@,
                self.spans@ == old(self).spans@,
                self.style_begin == old(self).style_begin,
                self.cursor_at_end == old(self).cursor_at_end,
                self.cursor_style == old(self).cursor_style,
                self.tab_len == old(self).tab_len,
                b0 == old(self).boundaries@,
                self.boundaries@ + search_events(ms.subrange(k as int, ms.len() as int), style)
                    == b0 + search_events(ms, style),
                old(self).wf() ==> forall|t: int|
                    0 <= t < self.boundaries@.len() ==> (#[trigger] self.boundaries@[t]).1
                        <= self.line@.len(),
            decreases ms.len() - k,
        {
            proof {
                assert(ms.subrange(k as int, ms.len() as int)[0] == ms[k as int]);
                assert(ms.subrange(k as int, ms.len() as int).drop_first() =~= ms.subrange(
                    k + 1,
                    ms.len() as int,
                ));
                assert((matches@[k as int]).0 <= old(self).line@.len());
                assert((matches@[k as int]).1 <= old(self).line@.len());
            }
            let (ms_start, ms_end) = matches[k];
            if ms_start != ms_end {
                self.boundaries.push((Boundary::Search(style), ms_start));
                self.boundaries.push((Boundary::End, ms_end));
            }
            proof {
                assert(self.boundaries@ + search_events(
                    ms.subrange(k + 1, ms.len() as int),
                    style,
                ) =~= b0 + search_events(ms, style));
            }
            k = k + 1;
        }
        proof {
            assert(ms.subrange(ms.len() as int, ms.len() as int) =~= Seq::<(usize, usize)>::empty());
            assert(self.boundaries@ =~= b0 + search_events(ms, style));
        }
    }

    /// Consumes the highlighter into its ordered span sequence: the
    /// accumulated prefix spans, then the styled runs covering the whole
    /// line, then the trailing cursor space if the cursor sits past the end.
    #[verifier::loop_isolation(false)]
    pub fn into_spans(self) -> (r: Vec<Span>)
        requires
            self.wf(),
        ensures
            span_models(r@) == span_models(self.spans@) + composed_spans(
                self.line@,
                self.boundaries@,
                self.style_begin,
                self.cursor_style,
                self.cursor_at_end,
                self.tab_len as nat,
            ),
    {
        let LineHighlighter {
            line,
            mut spans,
            boundaries,
            style_begin,
            cursor_at_end,
            cursor_style,
            tab_len,
        } = self;
        let ghost spans0 = span_models(spans@);
        let ghost line_s = line@;
        let ghost tab = tab_len as nat;

        if boundaries.len() == 0 {
            let content = replace_tabs(&line, 0, line.len(), tab_len);
            proof {
                assert(line_s.subrange(0, line_s.len() as int) =~= line_s);
            }
            let s = Span { content, style: style_begin };
            proof {
                lemma_span_models_push(spans@, s);
            }
            spans.push(s);
            if cursor_at_end {
                let mut c: Vec<u8> = Vec::new();
                c.push(32u8);
                let t = Span { content: c, style: cursor_style };
                proof {
                    lemma_span_models_push(spans@, t);
                }
                spans.push(t);
            }
            proof {
                assert(span_models(spans@) =~= spans0 + composed_spans(
                    self.line@,
                    self.boundaries@,
                    self.style_begin,
                    self.cursor_style,
                    self.cursor_at_end,
                    self.tab_len as nat,
                ));
            }
            return spans;
        }

        let ghost bnds0 = boundaries@;
        let sorted = sort_boundaries(boundaries);
        let ghost sorted_s = sorted@;
        proof {
            lemma_sort_bnds_bounded(bnds0, line_s.len());
        }

        let mut style = style_begin;
        let mut start: usize = 0;
        let mut stack: Vec<Style> = Vec::new();
        proof {
            assert(sorted_s.subrange(0, sorted_s.len() as int) =~= sorted_s);
            assert(stack@ =~= Seq::<Style>::empty());
        }
        let mut k: usize = 0;
        while k < sorted.len()
            invariant
                k <= sorted_s.len(),
                sorted@ == sorted_s,
                line@ == line_s,
                start <= line_s.len(),
                forall|t: int|
                    0 <= t < sorted_s.len() ==> (#[trigger] sorted_s[t]).1 <= line_s.len(),
                span_models(spans@) + sweep(
                    sorted_s.subrange(k as int, sorted_s.len() as int),
                    line_s,
                    tab,
                    style_begin,
                    start as int,
                    style,
                    stack@,
                ) == spans0 + sweep(sorted_s, line_s, tab, style_begin, 0, style_begin, Seq::empty()),
            decreases sorted_s.len() - k,
        {
            let ghost rest = sorted_s.subrange(k as int, sorted_s.len() as int);
            let ghost spans_pre = span_models(spans@);
            let ghost style0 = style;
            let ghost stack0 = stack@;
            let ghost start0 = start as int;
            proof {
                assert(rest[0] == sorted_s[k as int]);
                assert(rest.drop_first() =~= sorted_s.subrange(k + 1, sorted_s.len() as int));
            }
            let (b, end) = sorted[k];
            let ghost emitted: Seq<SpanModel> = if start0 < end {
                seq![
                    SpanModel {
                        content: expand_tabs(line_s.subrange(start0, end as int), tab),
                        style: style0,
                    },
                ]
            } else {
                Seq::empty()
            };
            if start < end {
                let content = replace_tabs(&line, start, end, tab_len);
                let sp = Span { content, style };
                proof {
                    lemma_span_models_push(spans@, sp);
                }
                spans.push(sp);
                proof {
                    assert(sp@ =~= emitted[0]);
                    assert(span_models(spans@) == spans_pre.push(sp@));
                    assert(spans_pre.push(sp@) =~= spans_pre + emitted);
                }
            }
            proof {
                if !(start0 < end) {
                    assert(span_models(spans@) =~= spans_pre + emitted);
                }
                assert(span_models(spans@) == spans_pre + emitted);
            }
            match b {
                Boundary::Cursor(st) => {
                    stack.push(style);
                    style = st;
                },
                Boundary::Search(st) => {
                    stack.push(style);
                    style = st;
                },
                Boundary::End => {
                    style = match stack.pop() {
                        Some(st) => st,
                        None => style_begin,
                    };
                },
            }
            start = end;
            proof {
                match rest[0].0 {
                    Boundary::Cursor(st) => {
                        assert(stack@ == stack0.push(style0));
                        assert(style == st);
                    },
                    Boundary::Search(st) => {
                        assert(stack@ == stack0.push(style0));
                        assert(style == st);
                    },
                    Boundary::End => {
                        if stack0.len() > 0 {
                            assert(stack@ =~= stack0.drop_last());
                            assert(style == stack0.last());
                        } else {
                            assert(stack@ =~= stack0);
                            assert(style == style_begin);
                        }
                    },
                }
                assert(sweep(rest, line_s, tab, style_begin, start0, style0, stack0) == emitted
                    + sweep(
                    rest.drop_first(),
                    line_s,
                    tab,
                    style_begin,
                    end as int,
                    style,
                    stack@,
                ));
                assert((spans_pre + emitted) + sweep(
                    rest.drop_first(),
                    line_s,
                    tab,
                    style_begin,
                    end as int,
                    style,
                    stack@,
                ) =~= spans_pre + (emitted + sweep(
                    rest.drop_first(),
                    line_s,
                    tab,
                    style_begin,
                    end as int,
                    style,
                    stack@,
                )));
                assert(span_models(spans@) + sweep(
                    sorted_s.subrange(k + 1, sorted_s.len() as int),
                    line_s,
                    tab,
                    style_begin,
                    start as int,
                    style,
                    stack@,
                ) == spans0 + sweep(
                    sorted_s,
                    line_s,
                    tab,
                    style_begin,
                    0,
                    style_begin,
                    Seq::empty(),
                ));
            }
            k = k + 1;
        }
        let ghost loop_spans = span_models(spans@);
        let ghost loop_style = style;
        let ghost loop_start = start as int;
        proof {
            assert(sorted_s.subrange(sorted_s.len() as int, sorted_s.len() as int) =~= Seq::<
                (Boundary, usize),
            >::empty());
            assert(loop_spans + sweep(
                Seq::<(Boundary, usize)>::empty(),
                line_s,
                tab,
                style_begin,
                loop_start,
                loop_style,
                stack@,
            ) == spans0 + sweep(sorted_s, line_s, tab, style_begin, 0, style_begin, Seq::empty()));
        }
        if start != line.len() {
            let content = replace_tabs(&line, start, line.len(), tab_len);
            let sp = Span { content, style };
            proof {
                lemma_span_models_push(spans@, sp);
            }
            spans.push(sp);
        }
        proof {
            assert(span_models(spans@) =~= loop_spans + sweep(
                Seq::<(Boundary, usize)>::empty(),
                line_s,
                tab,
                style_begin,
                loop_start,
                loop_style,
                stack@,
            ));
            assert(span_models(spans@) =~= spans0 + sweep(
                sorted_s,
                line_s,
                tab,
                style_begin,
                0,
                style_begin,
                Seq::empty(),
            ));
        }
        let ghost before_tail = span_models(spans@);
        if cursor_at_end {
            let mut c: Vec<u8> = Vec::new();
            c.push(32u8);
            let t = Span { content: c, style: cursor_style };
            proof {
                lemma_span_models_push(spans@, t);
                assert(c@ =~= seq![32u8]);
            }
            spans.push(t);
        }
        proof {
            assert(sorted_s == sort_bnds(bnds0));
            assert(span_models(spans@) =~= spans0 + composed_spans(
                line_s,
                bnds0,
                style_begin,
                cursor_style,
                cursor_at_end,
                tab,
            ));
            assert(spans0 == span_models(self.spans@));
            assert(bnds0 == self.boundaries@);
        }
        spans
    }
}

} // verus!
