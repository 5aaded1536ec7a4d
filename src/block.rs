//! Indentation-driven block parser.
use vstd::prelude::*;

use crate::text::{char_is_space, chars_of, is_space, string_from_chars};

verus! {

/// One line of text and the lines nested under it.
#[derive(Debug, PartialEq)]
pub struct Block {
    pub head: String,
    pub subs: Vec<Block>,
}

/// The mathematical value of a [`Block`].
pub struct BlockView {
    pub head: Seq<char>,
    pub subs: Seq<BlockView>,
}

impl Block {
    pub open spec fn view(&self) -> BlockView
        decreases self,
    {
        BlockView {
            head: self.head@,
            subs: Seq::new(
                self.subs@.len(),
                |i: int|
                    if 0 <= i < self.subs@.len() {
                        self.subs@[i].view()
                    } else {
                        BlockView { head: seq![], subs: seq![] }
                    },
            ),
        }
    }
}

/// Index of the first character at or after `i` that is not whitespace.
pub open spec fn indent_end(l: Seq<char>, i: int) -> int
    decreases l.len() - i,
{
    if 0 <= i < l.len() && is_space(l[i]) {
        indent_end(l, i + 1)
    } else {
        i
    }
}

/// A line split into its leading whitespace and the rest.
pub open spec fn split_indent(l: Seq<char>) -> (Seq<char>, Seq<char>) {
    let k = indent_end(l, 0);
    (l.take(k), l.skip(k))
}

/// The complete lines of `s` (each without its line ending) and the unfinished last one.
pub open spec fn line_scan(s: Seq<char>) -> (Seq<Seq<char>>, Seq<char>)
    decreases s.len(),
{
    if s.len() == 0 {
        (seq![], seq![])
    } else {
        let (done, cur) = line_scan(s.drop_last());
        if s.last() == '\n' {
            let l = if cur.len() > 0 && cur.last() == '\r' {
                cur.drop_last()
            } else {
                cur
            };
            (done.push(l), seq![])
        } else {
            (done, cur.push(s.last()))
        }
    }
}

/// The lines of `s`: split at `\n` or `\r\n`, a final line ending being optional.
pub open spec fn text_lines(s: Seq<char>) -> Seq<Seq<char>> {
    let (done, cur) = line_scan(s);
    if cur.len() > 0 {
        done.push(cur)
    } else {
        done
    }
}

/// The non-blank lines among `ls`, each split into indentation and content.
pub open spec fn indented(ls: Seq<Seq<char>>) -> Seq<(Seq<char>, Seq<char>)>
    decreases ls.len(),
{
    if ls.len() == 0 {
        seq![]
    } else {
        let rest = indented(ls.drop_last());
        let p = split_indent(ls.last());
        if p.1.len() > 0 {
            rest.push(p)
        } else {
            rest
        }
    }
}

/// The non-blank lines of `s`, each split into indentation and content.
pub open spec fn indented_lines(s: Seq<char>) -> Seq<(Seq<char>, Seq<char>)> {
    indented(text_lines(s))
}

/// `a` is a proper prefix of `b`.
pub open spec fn deeper(a: Seq<char>, b: Seq<char>) -> bool {
    a.len() < b.len() && b.take(a.len() as int) == a
}

/// The first line at or after `k` that is not indented deeper than line `j`.
pub open spec fn scope_end(ls: Seq<(Seq<char>, Seq<char>)>, j: int, k: int) -> int
    decreases ls.len() - k,
{
    if 0 <= k < ls.len() && deeper(ls[j].0, ls[k].0) {
        scope_end(ls, j, k + 1)
    } else {
        k
    }
}

/// The block that line `j` opens.
pub open spec fn tree_at(ls: Seq<(Seq<char>, Seq<char>)>, j: int) -> BlockView
    decreases ls.len() - j, 0int,
{
    BlockView {
        head: ls[j].1,
        subs: if 0 <= j < ls.len() {
            children_from(ls, j, j + 1)
        } else {
            seq![]
        },
    }
}

/// The children of line `j` that start at or after line `k`.
pub open spec fn children_from(ls: Seq<(Seq<char>, Seq<char>)>, j: int, k: int) -> Seq<BlockView>
    decreases ls.len() - k, 1int,
{
    if 0 <= j < k < ls.len() && deeper(ls[j].0, ls[k].0) {
        let e = scope_end(ls, k, k + 1);
        proof {
            lemma_scope_end(ls, k, k + 1);
        }
        seq![tree_at(ls, k)] + children_from(ls, j, e)
    } else {
        seq![]
    }
}

/// The top-level blocks that start at or after line `k`.
pub open spec fn roots_from(ls: Seq<(Seq<char>, Seq<char>)>, k: int) -> Seq<BlockView>
    decreases ls.len() - k,
{
    if 0 <= k < ls.len() {
        let e = scope_end(ls, k, k + 1);
        proof {
            lemma_scope_end(ls, k, k + 1);
        }
        seq![tree_at(ls, k)] + roots_from(ls, e)
    } else {
        seq![]
    }
}

/// The forest that the indentation of `s` describes.
pub open spec fn forest_of(s: Seq<char>) -> Seq<BlockView> {
    roots_from(indented_lines(s), 0)
}

/// The heads of a block and of all blocks under it, in document order.
pub open spec fn flatten(b: BlockView) -> Seq<Seq<char>>
    decreases b, 1int,
{
    seq![b.head] + flatten_all(b.subs)
}

/// The heads of a forest, in document order.
pub open spec fn flatten_all(bs: Seq<BlockView>) -> Seq<Seq<char>>
    decreases bs, 0int,
{
    if bs.len() == 0 {
        seq![]
    } else {
        flatten_all(bs.drop_last()) + flatten(bs.last())
    }
}

/// The contents of the lines, in order.
pub open spec fn heads_of(ls: Seq<(Seq<char>, Seq<char>)>) -> Seq<Seq<char>> {
    ls.map_values(|p: (Seq<char>, Seq<char>)| p.1)
}

/// The values of a sequence of blocks.
pub open spec fn views(bs: Seq<Block>) -> Seq<BlockView> {
    bs.map_values(|b: Block| b@)
}

/// A scope ends between `k` and the last line, and every line inside it is deeper than line `j`.
pub proof fn lemma_scope_end(ls: Seq<(Seq<char>, Seq<char>)>, j: int, k: int)
    requires
        0 <= k <= ls.len(),
    ensures
        k <= scope_end(ls, j, k) <= ls.len(),
        forall|m: int| k <= m < scope_end(ls, j, k) ==> deeper(ls[j].0, ls[m].0),
    decreases ls.len() - k,
{
    if k < ls.len() && deeper(ls[j].0, ls[k].0) {
        lemma_scope_end(ls, j, k + 1);
    }
}

proof fn lemma_scope_skip(ls: Seq<(Seq<char>, Seq<char>)>, j: int, k: int, k2: int)
    requires
        0 <= k <= k2 <= ls.len(),
        forall|m: int| k <= m < k2 ==> deeper(ls[j].0, ls[m].0),
    ensures
        scope_end(ls, j, k) == scope_end(ls, j, k2),
    decreases k2 - k,
{
    if k < k2 {
        lemma_scope_skip(ls, j, k + 1, k2);
    }
}

proof fn lemma_deeper_trans(a: Seq<char>, b: Seq<char>, c: Seq<char>)
    requires
        deeper(a, b),
        deeper(b, c),
    ensures
        deeper(a, c),
{
    assert(c.take(a.len() as int) =~= c.take(b.len() as int).take(a.len() as int));
}

proof fn lemma_flatten_push(bs: Seq<BlockView>, b: BlockView)
    ensures
        flatten_all(bs.push(b)) == flatten_all(bs) + flatten(b),
{
    assert(bs.push(b).drop_last() =~= bs);
}

/// The values of lines held as indentation and content.
pub open spec fn line_views(ls: Seq<(Vec<char>, Vec<char>)>) -> Seq<(Seq<char>, Seq<char>)> {
    ls.map_values(|p: (Vec<char>, Vec<char>)| (p.0@, p.1@))
}

fn copy_range(v: &Vec<char>, lo: usize, hi: usize) -> (r: Vec<char>)
    requires
        lo <= hi <= v.len(),
    ensures
        r@ == v@.subrange(lo as int, hi as int),
{
    let mut r: Vec<char> = Vec::new();
    let mut i: usize = lo;
    while i < hi
        invariant
            lo <= i <= hi <= v.len(),
            r@ == v@.subrange(lo as int, i as int),
        decreases hi - i,
    {
        r.push(v[i]);
        i = i + 1;
        assert(r@ =~= v@.subrange(lo as int, i as int));
    }
    r
}

fn split_line(l: &Vec<char>) -> (r: (Vec<char>, Vec<char>))
    ensures
        (r.0@, r.1@) == split_indent(l@),
{
    let mut k: usize = 0;
    while k < l.len() && char_is_space(l[k])
        invariant
            k <= l.len(),
            indent_end(l@, 0) == indent_end(l@, k as int),
        decreases l.len() - k,
    {
        k = k + 1;
    }
    let a = copy_range(l, 0, k);
    let b = copy_range(l, k, l.len());
    assert(a@ =~= l@.take(k as int));
    assert(b@ =~= l@.skip(k as int));
    (a, b)
}

/// Splits `text` into its non-blank lines, each as indentation and content.
fn indented_lines_of(text: &Vec<char>) -> (r: Vec<(Vec<char>, Vec<char>)>)
    ensures
        line_views(r@) == indented_lines(text@),
{
    let mut out: Vec<(Vec<char>, Vec<char>)> = Vec::new();
    let mut cur: Vec<char> = Vec::new();
    let ghost mut done: Seq<Seq<char>> = seq![];
    let mut i: usize = 0;
    while i < text.len()
        invariant
            i <= text.len(),
            line_scan(text@.take(i as int)) == (done, cur@),
            line_views(out@) == indented(done),
        decreases text.len() - i,
    {
        let c = text[i];
        assert(text@.take(i + 1).drop_last() =~= text@.take(i as int));
        if c == '\n' {
            if cur.len() > 0 && cur[cur.len() - 1] == '\r' {
                cur.pop();
            }
            let p = split_line(&cur);
            proof {
                assert(done.push(cur@).drop_last() =~= done);
            }
            if p.1.len() > 0 {
                out.push(p);
                assert(line_views(out@) =~= indented(done.push(cur@)));
            }
            proof {
                done = done.push(cur@);
            }
            cur = Vec::new();
        } else {
            cur.push(c);
        }
        i = i + 1;
    }
    assert(text@.take(text.len() as int) =~= text@);
    if cur.len() > 0 {
        let p = split_line(&cur);
        proof {
            assert(done.push(cur@).drop_last() =~= done);
        }
        if p.1.len() > 0 {
            out.push(p);
            assert(line_views(out@) =~= indented(done.push(cur@)));
        }
    }
    out
}

/// Splits a line into its leading whitespace and the rest.
pub fn get_indent(s: &str) -> (r: (String, String))
    ensures
        (r.0@, r.1@) == split_indent(s@),
{
    let l = chars_of(s);
    let p = split_line(&l);
    (string_from_chars(p.0.as_slice()), string_from_chars(p.1.as_slice()))
}

fn is_deeper(a: &Vec<char>, b: &Vec<char>) -> (r: bool)
    ensures
        r == deeper(a@, b@),
{
    if a.len() >= b.len() {
        return false;
    }
    let mut i: usize = 0;
    while i < a.len()
        invariant
            i <= a.len() < b.len(),
            forall|m: int| 0 <= m < i ==> a@[m] == b@[m],
        decreases a.len() - i,
    {
        if a[i] != b[i] {
            assert(b@.take(a.len() as int)[i as int] != a@[i as int]);
            return false;
        }
        i = i + 1;
    }
    assert(b@.take(a.len() as int) =~= a@);
    true
}

fn parse_block(ls: &Vec<(Vec<char>, Vec<char>)>, j: usize) -> (r: (Block, usize))
    requires
        j < ls.len(),
    ensures
        r.1 == scope_end(line_views(ls@), j as int, j + 1),
        r.0@ == tree_at(line_views(ls@), j as int),
        flatten(r.0@) == heads_of(line_views(ls@)).subrange(j as int, r.1 as int),
        forall|m: int| j < m < r.1 ==> deeper(line_views(ls@)[j as int].0, line_views(ls@)[m].0),
        j < r.1 <= ls.len(),
    decreases ls.len() - j, 0int,
{
    let ghost lv = line_views(ls@);
    let ghost hs = heads_of(lv);
    let head = string_from_chars(ls[j].1.as_slice());
    let mut subs: Vec<Block> = Vec::new();
    let mut k: usize = j + 1;
    proof {
        lemma_scope_end(lv, j as int, j + 1);
        assert(flatten_all(views(subs@)) =~= hs.subrange(j + 1, k as int));
    }
    while k < ls.len() && is_deeper(&ls[j].0, &ls[k].0)
        invariant
            j < k <= ls.len(),
            lv == line_views(ls@),
            hs == heads_of(lv),
            scope_end(lv, j as int, j + 1) == scope_end(lv, j as int, k as int),
            forall|m: int| j < m < k ==> deeper(lv[j as int].0, lv[m].0),
            children_from(lv, j as int, j + 1) == views(subs@) + children_from(
                lv,
                j as int,
                k as int,
            ),
            flatten_all(views(subs@)) == hs.subrange(j + 1, k as int),
        decreases ls.len() - k,
    {
        let (b, k2) = parse_block(ls, k);
        proof {
            assert forall|m: int| k <= m < k2 implies deeper(lv[j as int].0, lv[m].0) by {
                if m > k {
                    lemma_deeper_trans(lv[j as int].0, lv[k as int].0, lv[m].0);
                }
            }
            lemma_scope_skip(lv, j as int, k as int, k2 as int);
            lemma_flatten_push(views(subs@), b@);
            assert(views(subs@.push(b)) =~= views(subs@).push(b@));
            assert(children_from(lv, j as int, k as int) == seq![b@] + children_from(
                lv,
                j as int,
                k2 as int,
            ));
            assert(views(subs@) + children_from(lv, j as int, k as int) =~= views(subs@).push(b@)
                + children_from(lv, j as int, k2 as int));
            assert(hs.subrange(j + 1, k as int) + hs.subrange(k as int, k2 as int) =~= hs.subrange(
                j + 1,
                k2 as int,
            ));
        }
        subs.push(b);
        k = k2;
    }
    proof {
        assert(children_from(lv, j as int, k as int) =~= seq![]);
        assert(views(subs@) + seq![] =~= views(subs@));
        assert(subs@.len() == views(subs@).len());
        let bv = Block { head, subs }.view();
        assert(bv.subs =~= views(subs@));
        assert(seq![hs[j as int]] + hs.subrange(j + 1, k as int) =~= hs.subrange(j as int, k as int));
    }
    (Block { head, subs }, k)
}

/// Parses `s` into the forest that its indentation describes.
///
/// Blank lines are dropped. A line indented deeper than the block above it
/// nests under that block; a line at the same indentation becomes its
/// sibling; a shallower line closes every deeper block first.
pub fn parse_nested_blocks(s: &str) -> (r: Vec<Block>)
    ensures
        views(r@) == forest_of(s@),
        flatten_all(views(r@)) == heads_of(indented_lines(s@)),
{
    let text = chars_of(s);
    let ls = indented_lines_of(&text);
    let ghost lv = line_views(ls@);
    let ghost hs = heads_of(lv);
    let mut out: Vec<Block> = Vec::new();
    let mut k: usize = 0;
    assert(flatten_all(views(out@)) =~= hs.subrange(0, 0));
    while k < ls.len()
        invariant
            k <= ls.len(),
            lv == line_views(ls@),
            hs == heads_of(lv),
            roots_from(lv, 0) == views(out@) + roots_from(lv, k as int),
            flatten_all(views(out@)) == hs.subrange(0, k as int),
        decreases ls.len() - k,
    {
        let (b, k2) = parse_block(&ls, k);
        proof {
            lemma_flatten_push(views(out@), b@);
            assert(views(out@.push(b)) =~= views(out@).push(b@));
            assert(views(out@) + roots_from(lv, k as int) =~= views(out@).push(b@) + roots_from(
                lv,
                k2 as int,
            ));
            assert(hs.subrange(0, k as int) + hs.subrange(k as int, k2 as int) =~= hs.subrange(
                0,
                k2 as int,
            ));
        }
        out.push(b);
        k = k2;
    }
    assert(views(out@) + seq![] =~= views(out@));
    assert(hs.subrange(0, k as int) =~= hs);
    out
}

} // verus!
