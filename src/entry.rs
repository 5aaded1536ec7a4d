//! Adjacency lines of a router block: their kinds, metrics and order.
use vstd::prelude::*;

use crate::text::{chars_of, is_ascii_space, string_from_chars};

verus! {

/// The kind of object that an adjacency line points at.
#[derive(Clone, Copy, Debug, PartialEq, Eq, Structural)]
pub enum EntryType {
    External,
    Router,
    StubNet,
    Network,
    XNetwork,
    XRouter,
}

/// An OSPF cost: internal (type 1) or external (type 2).
#[derive(Clone, Copy, Debug, PartialEq, Eq, Structural)]
pub enum Metric {
    Internal(u16),
    External(u16),
}

/// Why an adjacency line could not be read.
#[derive(Clone, Copy, Debug, PartialEq, Eq, Structural)]
pub enum EntryParseError {
    InvalidEntryType,
    InvalidMetric,
    UnknownMetric,
    InvalidStructure(usize),
}

/// One adjacency line: `<type> <object> <metric-kind> <metric-value>`.
#[derive(Clone, Debug, PartialEq)]
pub struct Entry {
    pub typ: EntryType,
    pub obj: String,
    pub metric: Metric,
}

/// The mathematical value of an [`Entry`].
pub struct EntryView {
    pub typ: EntryType,
    pub obj: Seq<char>,
    pub metric: Metric,
}

impl Entry {
    pub open spec fn view(&self) -> EntryView {
        EntryView { typ: self.typ, obj: self.obj@, metric: self.metric }
    }
}

/// The position of a type in the order of entries.
pub open spec fn type_rank(t: EntryType) -> u8 {
    match t {
        EntryType::External => 0,
        EntryType::Router => 1,
        EntryType::StubNet => 2,
        EntryType::Network => 3,
        EntryType::XNetwork => 4,
        EntryType::XRouter => 5,
    }
}

/// The type that a word names.
pub open spec fn entry_type_of(w: Seq<char>) -> Option<EntryType> {
    if w == "external"@ {
        Some(EntryType::External)
    } else if w == "router"@ {
        Some(EntryType::Router)
    } else if w == "stubnet"@ {
        Some(EntryType::StubNet)
    } else if w == "network"@ {
        Some(EntryType::Network)
    } else if w == "xnetwork"@ {
        Some(EntryType::XNetwork)
    } else if w == "xrouter"@ {
        Some(EntryType::XRouter)
    } else {
        None
    }
}

/// An ASCII decimal digit.
pub open spec fn is_digit(c: char) -> bool {
    '0' <= c <= '9'
}

/// The value of a string of decimal digits.
pub open spec fn digits_value(s: Seq<char>) -> nat
    decreases s.len(),
{
    if s.len() == 0 {
        0
    } else {
        digits_value(s.drop_last()) * 10 + (s.last() as nat - '0' as nat) as nat
    }
}

/// The digits of an unsigned number: the text without one leading `+`.
pub open spec fn unsigned_digits(s: Seq<char>) -> Seq<char> {
    if s.len() > 0 && s[0] == '+' {
        s.drop_first()
    } else {
        s
    }
}

/// Every character of `d` is a decimal digit.
pub open spec fn all_digits(d: Seq<char>) -> bool {
    forall|i: int| 0 <= i < d.len() ==> is_digit(#[trigger] d[i])
}

/// An unsigned decimal number no larger than `max`, with an optional leading `+`.
pub open spec fn parse_unsigned(s: Seq<char>, max: nat) -> Option<nat> {
    let d = unsigned_digits(s);
    if d.len() > 0 && all_digits(d) && digits_value(d) <= max {
        Some(digits_value(d))
    } else {
        None
    }
}

/// The words of `s` (runs between ASCII whitespace) and the unfinished last one.
pub open spec fn word_scan(s: Seq<char>) -> (Seq<Seq<char>>, Seq<char>)
    decreases s.len(),
{
    if s.len() == 0 {
        (seq![], seq![])
    } else {
        let (ws, cur) = word_scan(s.drop_last());
        if is_ascii_space(s.last()) {
            (
                if cur.len() > 0 {
                    ws.push(cur)
                } else {
                    ws
                },
                seq![],
            )
        } else {
            (ws, cur.push(s.last()))
        }
    }
}

/// The words of `s`, split at ASCII whitespace.
pub open spec fn ascii_words(s: Seq<char>) -> Seq<Seq<char>> {
    let (ws, cur) = word_scan(s);
    if cur.len() > 0 {
        ws.push(cur)
    } else {
        ws
    }
}

/// The metric named by a kind word and a value word.
pub open spec fn metric_of(t: Seq<char>, v: Seq<char>) -> Result<Metric, EntryParseError> {
    match parse_unsigned(v, 0xffff) {
        None => Err(EntryParseError::InvalidMetric),
        Some(n) => if t == "metric"@ {
            Ok(Metric::Internal(n as u16))
        } else if t == "metric2"@ {
            Ok(Metric::External(n as u16))
        } else {
            Err(EntryParseError::UnknownMetric)
        },
    }
}

/// The entry that an adjacency line describes.
pub open spec fn entry_of(s: Seq<char>) -> Result<EntryView, EntryParseError> {
    let ws = ascii_words(s);
    if ws.len() != 4 {
        Err(EntryParseError::InvalidStructure(ws.len() as usize))
    } else {
        match entry_type_of(ws[0]) {
            None => Err(EntryParseError::InvalidEntryType),
            Some(t) => match metric_of(ws[2], ws[3]) {
                Err(e) => Err(e),
                Ok(m) => Ok(EntryView { typ: t, obj: ws[1], metric: m }),
            },
        }
    }
}

/// The weight of a metric: external metrics rank above every internal one.
pub open spec fn raw_weight(m: Metric) -> u32 {
    match m {
        Metric::Internal(x) => x as u32,
        Metric::External(x) => (1000 + x) as u32,
    }
}

/// Lexicographic order of strings by code point.
pub open spec fn chars_lt(a: Seq<char>, b: Seq<char>) -> bool
    decreases a.len(),
{
    if a.len() == 0 {
        b.len() > 0
    } else if b.len() == 0 {
        false
    } else if a[0] != b[0] {
        (a[0] as int) < (b[0] as int)
    } else {
        chars_lt(a.drop_first(), b.drop_first())
    }
}

/// The order of metrics: internal before external, then by value.
pub open spec fn metric_lt(a: Metric, b: Metric) -> bool {
    match (a, b) {
        (Metric::Internal(x), Metric::Internal(y)) => x < y,
        (Metric::Internal(_), Metric::External(_)) => true,
        (Metric::External(_), Metric::Internal(_)) => false,
        (Metric::External(x), Metric::External(y)) => x < y,
    }
}

/// The order of entries: by type, then object, then metric.
pub open spec fn entry_lt(a: EntryView, b: EntryView) -> bool {
    type_rank(a.typ) < type_rank(b.typ) || (a.typ == b.typ && (chars_lt(a.obj, b.obj) || (a.obj
        == b.obj && metric_lt(a.metric, b.metric))))
}

/// The entries that `v` holds.
pub open spec fn entry_set(v: Seq<Entry>) -> Set<EntryView> {
    Set::new(|x: EntryView| exists|i: int| 0 <= i < v.len() && v[i]@ == x)
}

/// Entries in strictly increasing order.
pub open spec fn sorted_entries(v: Seq<Entry>) -> bool {
    forall|i: int, j: int| 0 <= i < j < v.len() ==> entry_lt(#[trigger] v[i]@, #[trigger] v[j]@)
}

/// No string comes before itself.
pub proof fn lemma_chars_lt_irrefl(a: Seq<char>)
    ensures
        !chars_lt(a, a),
    decreases a.len(),
{
    if a.len() > 0 {
        lemma_chars_lt_irrefl(a.drop_first());
    }
}

/// The order of strings is transitive.
pub proof fn lemma_chars_lt_trans(a: Seq<char>, b: Seq<char>, c: Seq<char>)
    requires
        chars_lt(a, b),
        chars_lt(b, c),
    ensures
        chars_lt(a, c),
    decreases a.len(),
{
    if a.len() > 0 && b.len() > 0 && c.len() > 0 && a[0] == b[0] && b[0] == c[0] {
        lemma_chars_lt_trans(a.drop_first(), b.drop_first(), c.drop_first());
    }
}

/// Of two different strings, one comes first.
pub proof fn lemma_chars_lt_total(a: Seq<char>, b: Seq<char>)
    requires
        a != b,
    ensures
        chars_lt(a, b) || chars_lt(b, a),
    decreases a.len(),
{
    if a.len() > 0 && b.len() > 0 && a[0] == b[0] {
        if a.drop_first() == b.drop_first() {
            assert(a =~= seq![a[0]] + a.drop_first());
            assert(b =~= seq![b[0]] + b.drop_first());
        }
        lemma_chars_lt_total(a.drop_first(), b.drop_first());
    } else if a.len() == 0 && b.len() == 0 {
        assert(a =~= b);
    } else if a.len() > 0 && b.len() > 0 {
        assert((a[0] as int) != (b[0] as int));
    }
}

/// The order of entries is a strict total order.
pub proof fn lemma_entry_lt_order(a: EntryView, b: EntryView, c: EntryView)
    ensures
        !entry_lt(a, a),
        entry_lt(a, b) && entry_lt(b, c) ==> entry_lt(a, c),
        a != b ==> entry_lt(a, b) || entry_lt(b, a),
{
    lemma_chars_lt_irrefl(a.obj);
    if entry_lt(a, b) && entry_lt(b, c) && a.typ == b.typ && b.typ == c.typ {
        if chars_lt(a.obj, b.obj) && chars_lt(b.obj, c.obj) {
            lemma_chars_lt_trans(a.obj, b.obj, c.obj);
        }
    }
    if a != b && a.obj != b.obj {
        lemma_chars_lt_total(a.obj, b.obj);
    }
}

/// Relies on `Ord` for `str`: strings compare by their code points, lexicographically.
#[verifier::external_body]
fn str_less(a: &str, b: &str) -> (r: bool)
    ensures
        r == chars_lt(a@, b@),
{
    a < b
}

fn rank(t: EntryType) -> (r: u8)
    ensures
        r == type_rank(t),
{
    match t {
        EntryType::External => 0,
        EntryType::Router => 1,
        EntryType::StubNet => 2,
        EntryType::Network => 3,
        EntryType::XNetwork => 4,
        EntryType::XRouter => 5,
    }
}

fn metric_less(a: Metric, b: Metric) -> (r: bool)
    ensures
        r == metric_lt(a, b),
{
    match (a, b) {
        (Metric::Internal(x), Metric::Internal(y)) => x < y,
        (Metric::Internal(_), Metric::External(_)) => true,
        (Metric::External(_), Metric::Internal(_)) => false,
        (Metric::External(x), Metric::External(y)) => x < y,
    }
}

/// Whether `a` comes before `b` in the order of entries.
pub fn entry_less(a: &Entry, b: &Entry) -> (r: bool)
    ensures
        r == entry_lt(a@, b@),
{
    let ra = rank(a.typ);
    let rb = rank(b.typ);
    if ra != rb {
        return ra < rb;
    }
    proof {
        assert(a.typ == b.typ);
    }
    if str_less(a.obj.as_str(), b.obj.as_str()) {
        return true;
    }
    if a.obj != b.obj {
        return false;
    }
    metric_less(a.metric, b.metric)
}

/// Adds `e` to the ordered set of entries `v`.
pub fn insert_entry(v: &mut Vec<Entry>, e: Entry)
    requires
        sorted_entries(old(v)@),
    ensures
        sorted_entries(final(v)@),
        entry_set(final(v)@) == entry_set(old(v)@).insert(e@),
{
    let mut p: usize = 0;
    while p < v.len() && entry_less(&v[p], &e)
        invariant
            p <= v.len(),
            forall|i: int| 0 <= i < p ==> entry_lt(#[trigger] v@[i]@, e@),
        decreases v.len() - p,
    {
        p = p + 1;
    }
    if p < v.len() && !entry_less(&e, &v[p]) {
        proof {
            lemma_entry_lt_order(v@[p as int]@, e@, e@);
            assert(v@[p as int]@ == e@);
            assert(entry_set(v@).contains(e@));
            assert(entry_set(v@) =~= entry_set(v@).insert(e@));
        }
        return;
    }
    let ghost ov = v@;
    proof {
        assert forall|k: int| p <= k < ov.len() implies entry_lt(e@, #[trigger] ov[k]@) by {
            if k > p {
                lemma_entry_lt_order(e@, ov[p as int]@, ov[k]@);
            }
        }
    }
    v.insert(p, e);
    proof {
        assert forall|i: int, j: int| 0 <= i < j < v@.len() implies entry_lt(
            #[trigger] v@[i]@,
            #[trigger] v@[j]@,
        ) by {
            if i < p && j > p {
                lemma_entry_lt_order(ov[i]@, e@, ov[j - 1]@);
            }
        }
        assert forall|x: EntryView|
            entry_set(v@).contains(x) <==> entry_set(ov).insert(e@).contains(x) by {
            if x == e@ {
                assert(v@[p as int]@ == x);
            }
            if exists|i: int| 0 <= i < ov.len() && #[trigger] ov[i]@ == x {
                let i = choose|i: int| 0 <= i < ov.len() && #[trigger] ov[i]@ == x;
                if i < p {
                    assert(v@[i]@ == x);
                } else {
                    assert(v@[i + 1]@ == x);
                }
            }
            if exists|i: int| 0 <= i < v@.len() && #[trigger] v@[i]@ == x {
                let i = choose|i: int| 0 <= i < v@.len() && #[trigger] v@[i]@ == x;
                if i < p {
                    assert(ov[i]@ == x);
                } else if i > p {
                    assert(ov[i - 1]@ == x);
                }
            }
        }
        assert(entry_set(v@) =~= entry_set(ov).insert(e@));
    }
}

/// The values of a sequence of words.
pub open spec fn word_views(ws: Seq<Vec<char>>) -> Seq<Seq<char>> {
    ws.map_values(|w: Vec<char>| w@)
}

/// Whether the characters of `w` are those of `lit`.
pub fn word_is(w: &Vec<char>, lit: &str) -> (r: bool)
    ensures
        r == (w@ == lit@),
{
    let l = chars_of(lit);
    if w.len() != l.len() {
        return false;
    }
    let mut i: usize = 0;
    while i < w.len()
        invariant
            i <= w.len() == l.len(),
            l@ == lit@,
            forall|k: int| 0 <= k < i ==> w@[k] == l@[k],
        decreases w.len() - i,
    {
        if w[i] != l[i] {
            assert(w@[i as int] != l@[i as int]);
            return false;
        }
        i = i + 1;
    }
    assert(w@ =~= l@);
    true
}

fn ascii_space(c: char) -> (r: bool)
    ensures
        r == is_ascii_space(c),
{
    c == ' ' || c == '\t' || c == '\n' || c == '\x0C' || c == '\r'
}

/// The words of `s`, split at ASCII whitespace.
pub fn words_of(s: &Vec<char>) -> (r: Vec<Vec<char>>)
    ensures
        word_views(r@) == ascii_words(s@),
{
    let mut out: Vec<Vec<char>> = Vec::new();
    let mut cur: Vec<char> = Vec::new();
    let mut i: usize = 0;
    while i < s.len()
        invariant
            i <= s.len(),
            word_scan(s@.take(i as int)) == (word_views(out@), cur@),
        decreases s.len() - i,
    {
        let c = s[i];
        assert(s@.take(i + 1).drop_last() =~= s@.take(i as int));
        if ascii_space(c) {
            if cur.len() > 0 {
                let ghost before = out@;
                let w = cur;
                out.push(w);
                assert(word_views(out@) =~= word_views(before).push(w@));
                cur = Vec::new();
            }
        } else {
            cur.push(c);
        }
        i = i + 1;
    }
    assert(s@.take(s.len() as int) =~= s@);
    if cur.len() > 0 {
        let ghost before = out@;
        out.push(cur);
        assert(word_views(out@) =~= word_views(before).push(cur@));
    }
    out
}

/// Reads an unsigned decimal number no larger than `max`.
pub fn parse_number(w: &Vec<char>, max: u32) -> (r: Option<u32>)
    requires
        max <= 0xffff,
    ensures
        match parse_unsigned(w@, max as nat) {
            Some(n) => r == Some(n as u32),
            None => r is None,
        },
{
    let start: usize = if w.len() > 0 && w[0] == '+' {
        1
    } else {
        0
    };
    let ghost d = w@.subrange(start as int, w.len() as int);
    assert(d =~= unsigned_digits(w@));
    if start >= w.len() {
        return None;
    }
    let mut acc: u32 = 0;
    let mut i: usize = start;
    assert(w@.subrange(start as int, start as int) =~= seq![]);
    while i < w.len()
        invariant
            start <= i <= w.len(),
            d == w@.subrange(start as int, w.len() as int),
            d == unsigned_digits(w@),
            max <= 0xffff,
            forall|k: int| start <= k < i ==> is_digit(#[trigger] w@[k]),
            acc as nat == if digits_value(w@.subrange(start as int, i as int)) <= max {
                digits_value(w@.subrange(start as int, i as int))
            } else {
                max as nat + 1
            },
        decreases w.len() - i,
    {
        let c = w[i];
        if !('0' <= c && c <= '9') {
            assert(d[i - start] == c);
            assert(!is_digit(d[i - start]));
            assert(!all_digits(d));
            return None;
        }
        let ghost prev = digits_value(w@.subrange(start as int, i as int));
        assert(w@.subrange(start as int, i + 1).drop_last() =~= w@.subrange(start as int, i as int));
        let dv: u32 = (c as u32) - ('0' as u32);
        if acc <= max {
            assert(acc * 10 + dv <= 0xffff * 10 + 9) by (nonlinear_arith)
                requires
                    acc <= max,
                    max <= 0xffff,
                    dv <= 9,
            ;
            acc = acc * 10 + dv;
            if acc > max {
                acc = max + 1;
            }
        } else {
            assert(prev * 10 + dv > max) by (nonlinear_arith)
                requires
                    prev > max,
            ;
        }
        i = i + 1;
    }
    assert(w@.subrange(start as int, i as int) =~= d);
    if acc <= max {
        Some(acc)
    } else {
        None
    }
}

impl EntryType {
    /// The type that a word names.
    pub fn from_word(w: &Vec<char>) -> (r: Option<EntryType>)
        ensures
            r == entry_type_of(w@),
    {
        if word_is(w, "external") {
            Some(EntryType::External)
        } else if word_is(w, "router") {
            Some(EntryType::Router)
        } else if word_is(w, "stubnet") {
            Some(EntryType::StubNet)
        } else if word_is(w, "network") {
            Some(EntryType::Network)
        } else if word_is(w, "xnetwork") {
            Some(EntryType::XNetwork)
        } else if word_is(w, "xrouter") {
            Some(EntryType::XRouter)
        } else {
            None
        }
    }
}

impl Metric {
    /// The metric named by a kind word (`metric` or `metric2`) and a value word.
    pub fn new(t: &Vec<char>, v: &Vec<char>) -> (r: Result<Metric, EntryParseError>)
        ensures
            r == metric_of(t@, v@),
    {
        let n = match parse_number(v, 0xffff) {
            Some(n) => n,
            None => return Err(EntryParseError::InvalidMetric),
        };
        if word_is(t, "metric") {
            Ok(Metric::Internal(n as u16))
        } else if word_is(t, "metric2") {
            Ok(Metric::External(n as u16))
        } else {
            Err(EntryParseError::UnknownMetric)
        }
    }

    /// The weight of the metric; an external one counts 1000 more.
    pub fn weight(&self) -> (r: u32)
        ensures
            r == raw_weight(*self),
    {
        match *self {
            Metric::Internal(x) => x as u32,
            Metric::External(x) => 1000 + x as u32,
        }
    }
}

impl Entry {
    /// Reads an adjacency line: `<type> <object> <metric-kind> <metric-value>`.
    pub fn from_str(s: &str) -> (r: Result<Entry, EntryParseError>)
        ensures
            match entry_of(s@) {
                Ok(e) => r is Ok && r->Ok_0@ == e,
                Err(e) => r == Err::<Entry, EntryParseError>(e),
            },
    {
        let text = chars_of(s);
        let parts = words_of(&text);
        if parts.len() != 4 {
            return Err(EntryParseError::InvalidStructure(parts.len()));
        }
        let typ = match EntryType::from_word(&parts[0]) {
            Some(t) => t,
            None => return Err(EntryParseError::InvalidEntryType),
        };
        let metric = Metric::new(&parts[2], &parts[3])?;
        Ok(Entry { typ, obj: string_from_chars(parts[1].as_slice()), metric })
    }
}

} // verus!
