use vstd::prelude::*;
use vstd::string::{StrSliceExecFns, StringExecFns};
use crate::text::{
    chars_of, first_index, lemma_first_index_at, lemma_text_lt_asymmetric,
    lemma_text_lt_irreflexive, lemma_text_lt_total, lemma_text_lt_transitive, lemma_trim_fixed,
    text_less, text_lt, trim, trim_range, is_ws,
};

verus! {

/// A property as a pair of texts: key and value.
pub type PropertyText = (Seq<char>, Seq<char>);

/// The mapping that a list of properties gives, later entries winning.
pub open spec fn entries_map(e: Seq<PropertyText>) -> Map<Seq<char>, Seq<char>>
    decreases e.len(),
{
    if e.len() == 0 {
        Map::empty()
    } else {
        entries_map(e.drop_last()).insert(e.last().0, e.last().1)
    }
}

/// Keys strictly ascending in lexicographic order (so also pairwise distinct).
pub open spec fn strictly_ascending(e: Seq<PropertyText>) -> bool {
    forall|i: int, j: int| 0 <= i < j < e.len() ==> text_lt(#[trigger] e[i].0, #[trigger] e[j].0)
}

/// The pieces of `s` between newline characters, in order; there is always
/// at least one, and a trailing newline leaves an empty last piece.
pub open spec fn pieces(s: Seq<char>) -> Seq<Seq<char>>
    decreases s.len(),
{
    if s.len() == 0 {
        seq![Seq::empty()]
    } else {
        let p = pieces(s.drop_last());
        if s.last() == '\n' {
            p.push(Seq::empty())
        } else {
            p.update(p.len() - 1, p.last().push(s.last()))
        }
    }
}

/// What one line of a properties file contributes: nothing for a blank line,
/// a comment or a line without `=`; otherwise the trimmed text before the
/// first `=` as key and the trimmed text after it as value.
pub open spec fn line_entry(l: Seq<char>) -> Option<PropertyText> {
    let t = trim(l);
    if t.len() == 0 || t[0] == '#' {
        None
    } else {
        let i = first_index(t, '=');
        if i < t.len() {
            Some((trim(t.take(i)), trim(t.skip(i + 1))))
        } else {
            None
        }
    }
}

/// The mapping read from a sequence of lines, a later line winning over an
/// earlier one with the same key.
pub open spec fn parse_lines(ls: Seq<Seq<char>>) -> Map<Seq<char>, Seq<char>>
    decreases ls.len(),
{
    if ls.len() == 0 {
        Map::empty()
    } else {
        let m = parse_lines(ls.drop_last());
        match line_entry(ls.last()) {
            Some(kv) => m.insert(kv.0, kv.1),
            None => m,
        }
    }
}

/// The mapping that the text of a properties file holds.
pub open spec fn parse_properties(s: Seq<char>) -> Map<Seq<char>, Seq<char>> {
    parse_lines(pieces(s))
}

/// One `key=value` line, with its newline.
pub open spec fn property_line(p: PropertyText) -> Seq<char> {
    p.0 + seq!['='] + p.1 + seq!['\n']
}

/// The text of a properties file listing `e` in order.
pub open spec fn render(e: Seq<PropertyText>) -> Seq<char>
    decreases e.len(),
{
    if e.len() == 0 {
        Seq::empty()
    } else {
        render(e.drop_last()) + property_line(e.last())
    }
}

/// A key that is written and read back unchanged: no `=`, no newline, no
/// white space at either end, and not the start of a comment.
pub open spec fn storable_key(k: Seq<char>) -> bool {
    &&& !k.contains('=')
    &&& !k.contains('\n')
    &&& trim(k) == k
    &&& (k.len() == 0 || k[0] != '#')
}

/// A value that is written and read back unchanged: no `=`, no newline and
/// no white space at either end.
pub open spec fn storable_value(v: Seq<char>) -> bool {
    &&& !v.contains('=')
    &&& !v.contains('\n')
    &&& trim(v) == v
}

/// The key/value settings of one server instance.
#[derive(Clone, Debug)]
pub struct ServerProperties {
    entries: Vec<(String, String)>,
}

impl View for ServerProperties {
    type V = Map<Seq<char>, Seq<char>>;

    open spec fn view(&self) -> Map<Seq<char>, Seq<char>> {
        entries_map(self.listing())
    }
}

impl ServerProperties {
    /// The properties as a list of texts, in the order in which they are saved.
    pub closed spec fn listing(&self) -> Seq<PropertyText> {
        self.entries@.map_values(|p: (String, String)| (p.0@, p.1@))
    }

    /// The listing is sorted by key, so each key occurs once.
    pub closed spec fn wf(&self) -> bool {
        strictly_ascending(self.listing())
    }
}

pub proof fn lemma_entries_map_index(e: Seq<PropertyText>)
    requires
        strictly_ascending(e),
    ensures
        forall|i: int|
            0 <= i < e.len() ==> #[trigger] entries_map(e).contains_key(e[i].0) && entries_map(
                e,
            )[e[i].0] == e[i].1,
        forall|k: Seq<char>|
            #[trigger] entries_map(e).contains_key(k) ==> exists|i: int|
                0 <= i < e.len() && e[i].0 == k,
    decreases e.len(),
{
    if e.len() > 0 {
        let d = e.drop_last();
        assert(strictly_ascending(d));
        lemma_entries_map_index(d);
        assert(entries_map(e) == entries_map(d).insert(e.last().0, e.last().1));
        assert forall|i: int| 0 <= i < e.len() implies #[trigger] entries_map(e).contains_key(
            e[i].0,
        ) && entries_map(e)[e[i].0] == e[i].1 by {
            if i < e.len() - 1 {
                assert(d[i] == e[i]);
                assert(text_lt(e[i].0, e[e.len() - 1].0));
                lemma_text_lt_irreflexive(e[i].0);
            }
        }
        assert forall|k: Seq<char>| #[trigger] entries_map(e).contains_key(k) implies exists|
            i: int,
        | 0 <= i < e.len() && e[i].0 == k by {
            if k != e.last().0 {
                assert(entries_map(d).contains_key(k));
                let i = choose|i: int| 0 <= i < d.len() && d[i].0 == k;
                assert(e[i] == d[i]);
            }
        }
    }
}

/// Putting `(k, v)` at index `p` of a sorted list, in place of an entry with
/// key `k` or between the keys below and above `k`, keeps it sorted and maps
/// `k` to `v`.
pub proof fn lemma_place_sorted(e: Seq<PropertyText>, p: int, k: Seq<char>, v: Seq<char>)
    requires
        strictly_ascending(e),
        0 <= p <= e.len(),
        forall|i: int| 0 <= i < p ==> text_lt(#[trigger] e[i].0, k),
        p < e.len() ==> !text_lt(e[p].0, k),
    ensures
        p < e.len() && e[p].0 == k ==> strictly_ascending(e.update(p, (k, v))) && entries_map(
            e.update(p, (k, v)),
        ) == entries_map(e).insert(k, v),
        !(p < e.len() && e[p].0 == k) ==> strictly_ascending(e.insert(p, (k, v))) && entries_map(
            e.insert(p, (k, v)),
        ) == entries_map(e).insert(k, v),
{
    lemma_entries_map_index(e);
    let m = entries_map(e).insert(k, v);
    if p < e.len() && e[p].0 == k {
        let e2 = e.update(p, (k, v));
        assert(strictly_ascending(e2)) by {
            assert forall|i: int, j: int| 0 <= i < j < e2.len() implies text_lt(
                #[trigger] e2[i].0,
                #[trigger] e2[j].0,
            ) by {
                assert(e[i].0 == e2[i].0 && e[j].0 == e2[j].0);
            }
        }
        lemma_entries_map_index(e2);
        assert forall|x: Seq<char>| #[trigger] entries_map(e2).contains_key(x) <==> m.contains_key(
            x,
        ) by {
            if entries_map(e2).contains_key(x) {
                let i = choose|i: int| 0 <= i < e2.len() && e2[i].0 == x;
                assert(e[i].0 == x);
            }
            if entries_map(e).contains_key(x) {
                let i = choose|i: int| 0 <= i < e.len() && e[i].0 == x;
                assert(e2[i].0 == x);
            }
        }
        assert forall|x: Seq<char>| #[trigger] entries_map(e2).contains_key(x) implies entries_map(
            e2,
        )[x] == m[x] by {
            let i = choose|i: int| 0 <= i < e2.len() && e2[i].0 == x;
            if i != p {
                assert(e[i] == e2[i]);
            }
        }
        assert(entries_map(e2) =~= m);
    } else {
        let e2 = e.insert(p, (k, v));
        if p < e.len() {
            lemma_text_lt_total(e[p].0, k);
        }
        assert(strictly_ascending(e2)) by {
            assert forall|i: int, j: int| 0 <= i < j < e2.len() implies text_lt(
                #[trigger] e2[i].0,
                #[trigger] e2[j].0,
            ) by {
                if j < p {
                    assert(e2[i] == e[i] && e2[j] == e[j]);
                } else if j == p {
                    assert(e2[i] == e[i]);
                } else if i < p {
                    assert(e2[i] == e[i] && e2[j] == e[j - 1]);
                    lemma_text_lt_transitive(e[i].0, k, e[p].0);
                    if j - 1 > p {
                        lemma_text_lt_transitive(e[i].0, e[p].0, e[j - 1].0);
                    }
                } else if i == p {
                    assert(e2[j] == e[j - 1]);
                    if j - 1 > p {
                        lemma_text_lt_transitive(k, e[p].0, e[j - 1].0);
                    }
                } else {
                    assert(e2[i] == e[i - 1] && e2[j] == e[j - 1]);
                }
            }
        }
        lemma_entries_map_index(e2);
        assert forall|x: Seq<char>| #[trigger] entries_map(e2).contains_key(x) <==> m.contains_key(
            x,
        ) by {
            if entries_map(e2).contains_key(x) {
                let i = choose|i: int| 0 <= i < e2.len() && e2[i].0 == x;
                if i < p {
                    assert(e[i].0 == x);
                } else if i > p {
                    assert(e[i - 1].0 == x);
                }
            }
            if entries_map(e).contains_key(x) {
                let i = choose|i: int| 0 <= i < e.len() && e[i].0 == x;
                if i < p {
                    assert(e2[i].0 == x);
                } else {
                    assert(e2[i + 1].0 == x);
                }
            }
            if x == k {
                assert(e2[p].0 == x);
            }
        }
        assert forall|x: Seq<char>| #[trigger] entries_map(e2).contains_key(x) implies entries_map(
            e2,
        )[x] == m[x] by {
            let i = choose|i: int| 0 <= i < e2.len() && e2[i].0 == x;
            if i < p {
                assert(e2[i] == e[i]);
                lemma_text_lt_irreflexive(k);
            } else if i > p {
                assert(e2[i] == e[i - 1]);
                assert(text_lt(e2[p].0, e2[i].0));
                lemma_text_lt_irreflexive(k);
            }
        }
        assert(entries_map(e2) =~= m);
    }
}

impl ServerProperties {
    /// An empty set of properties.
    pub fn new() -> (r: ServerProperties)
        ensures
            r.wf(),
            r@ == Map::<Seq<char>, Seq<char>>::empty(),
    {
        let r = ServerProperties { entries: Vec::new() };
        assert(r.listing() =~= Seq::<PropertyText>::empty());
        r
    }

    /// The value stored under `key`, if any.
    pub fn get(&self, key: &str) -> (r: Option<&String>)
        requires
            self.wf(),
        ensures
            r is Some <==> self@.contains_key(key@),
            r is Some ==> r->0@ == self@[key@],
    {
        proof {
            lemma_entries_map_index(self.listing());
        }
        let wanted = String::from_str(key);
        let n = self.entries.len();
        let mut i: usize = 0;
        while i < n
            invariant
                n == self.entries.len(),
                self.wf(),
                wanted@ == key@,
                forall|j: int| 0 <= j < i ==> #[trigger] self.listing()[j].0 != key@,
            decreases n - i,
        {
            assert(self.listing()[i as int] == (self.entries@[i as int].0@, self.entries@[i as int].1@));
            if self.entries[i].0 == wanted {
                proof {
                    lemma_entries_map_index(self.listing());
                    assert(self.listing()[i as int].0 == key@);
                }
                return Some(&self.entries[i].1);
            }
            i = i + 1;
        }
        None
    }

    /// Stores `value` under `key`, replacing what was there.
    fn put(&mut self, key: String, value: String)
        requires
            old(self).wf(),
        ensures
            final(self).wf(),
            final(self)@ == old(self)@.insert(key@, value@),
    {
        let kc = chars_of(key.as_str());
        let n = self.entries.len();
        let mut p: usize = 0;
        while p < n
            invariant_except_break
                p <= n,
            invariant
                n == self.entries.len(),
                kc@ == key@,
                forall|i: int| 0 <= i < p ==> text_lt(#[trigger] self.listing()[i].0, key@),
            ensures
                p <= n,
                p < n ==> !text_lt(self.listing()[p as int].0, key@),
            decreases n - p,
        {
            assert(self.listing()[p as int].0 == self.entries@[p as int].0@);
            let ec = chars_of(self.entries[p].0.as_str());
            if !text_less(&ec, &kc) {
                break;
            }
            p = p + 1;
        }
        let ghost e = self.listing();
        proof {
            lemma_place_sorted(e, p as int, key@, value@);
        }
        assert(p < n ==> self.listing()[p as int].0 == self.entries@[p as int].0@);
        if p < n && self.entries[p].0 == key {
            self.entries.set(p, (key, value));
            assert(self.listing() =~= e.update(p as int, (key@, value@)));
        } else {
            self.entries.insert(p, (key, value));
            assert(self.listing() =~= e.insert(p as int, (key@, value@)));
        }
    }

    /// Stores `value` under `key` in memory, replacing what was there; the
    /// file is written only by an explicit save.
    pub fn set(&mut self, key: &str, value: &str)
        requires
            old(self).wf(),
        ensures
            final(self).wf(),
            final(self)@ == old(self)@.insert(key@, value@),
    {
        self.put(String::from_str(key), String::from_str(value));
    }
}

/// The property that the line `cs[lo..hi]` holds, if any.
fn line_property(cs: &Vec<char>, src: &str, lo: usize, hi: usize) -> (r: Option<(String, String)>)
    requires
        lo <= hi <= cs.len(),
        cs@ == src@,
    ensures
        r matches Some(kv) ==> line_entry(cs@.subrange(lo as int, hi as int)) == Some(
            (kv.0@, kv.1@),
        ),
        r is None ==> line_entry(cs@.subrange(lo as int, hi as int)) is None,
{
    let (a, b) = trim_range(cs, lo, hi);
    let ghost t = cs@.subrange(a as int, b as int);
    if a == b || cs[a] == '#' {
        return None;
    }
    let mut k: usize = a;
    while k < b && cs[k] != '='
        invariant
            a <= k <= b <= cs.len(),
            forall|j: int| a <= j < k ==> #[trigger] cs@[j] != '=',
        decreases b - k,
    {
        k = k + 1;
    }
    proof {
        assert forall|j: int| 0 <= j < k - a implies #[trigger] t[j] != '=' by {
            assert(t[j] == cs@[a + j]);
        }
        lemma_first_index_at(t, '=', k - a);
    }
    if k == b {
        return None;
    }
    let (ka, kb) = trim_range(cs, a, k);
    let (va, vb) = trim_range(cs, k + 1, b);
    assert(t.take(k - a) =~= cs@.subrange(a as int, k as int));
    assert(t.skip(k - a + 1) =~= cs@.subrange(k + 1, b as int));
    let key = String::from_str(src.substring_char(ka, kb));
    let value = String::from_str(src.substring_char(va, vb));
    Some((key, value))
}

impl ServerProperties {
    /// The properties that the text of a properties file holds.
    fn parse(s: &str) -> (r: ServerProperties)
        ensures
            r.wf(),
            r@ == parse_properties(s@),
    {
        let cs = chars_of(s);
        let mut props = ServerProperties::new();
        let mut start: usize = 0;
        let mut i: usize = 0;
        assert(cs@.take(0) =~= Seq::<char>::empty());
        while i < cs.len()
            invariant
                start <= i <= cs.len(),
                cs@ == s@,
                props.wf(),
                pieces(cs@.take(i as int)).len() >= 1,
                props@ == parse_lines(pieces(cs@.take(i as int)).drop_last()),
                pieces(cs@.take(i as int)).last() == cs@.subrange(start as int, i as int),
            decreases cs.len() - i,
        {
            let ghost old_pieces = pieces(cs@.take(i as int));
            assert(cs@.take(i + 1).drop_last() =~= cs@.take(i as int));
            assert(cs@.take(i + 1).last() == cs@[i as int]);
            if cs[i] == '\n' {
                match line_property(&cs, s, start, i) {
                    Some(kv) => props.put(kv.0, kv.1),
                    None => {},
                }
                assert(pieces(cs@.take(i + 1)).drop_last() =~= old_pieces);
                start = i + 1;
                assert(cs@.subrange(start as int, start as int) =~= Seq::<char>::empty());
            } else {
                assert(pieces(cs@.take(i + 1)).drop_last() =~= old_pieces.drop_last());
                assert(cs@.subrange(start as int, i + 1) =~= cs@.subrange(
                    start as int,
                    i as int,
                ).push(cs@[i as int]));
            }
            i = i + 1;
        }
        assert(cs@.take(i as int) =~= cs@);
        match line_property(&cs, s, start, i) {
            Some(kv) => props.put(kv.0, kv.1),
            None => {},
        }
        props
    }

    /// The properties read from a properties file with the given content;
    /// `None` stands for a file that does not exist, which holds no
    /// properties.
    pub fn load(content: Option<&str>) -> (r: ServerProperties)
        ensures
            r.wf(),
            r@ == match content {
                Some(s) => parse_properties(s@),
                None => Map::empty(),
            },
    {
        match content {
            Some(s) => ServerProperties::parse(s),
            None => ServerProperties::new(),
        }
    }

    /// The text of the properties file: one `key=value` line per property,
    /// in ascending order of keys.
    pub fn save(&self) -> (r: String)
        requires
            self.wf(),
        ensures
            r@ == render(self.listing()),
            strictly_ascending(self.listing()),
            entries_map(self.listing()) == self@,
    {
        let mut out = String::new();
        let n = self.entries.len();
        assert(self.listing().take(0) =~= Seq::<PropertyText>::empty());
        for i in 0..n
            invariant
                n == self.entries.len(),
                out@ == render(self.listing().take(i as int)),
        {
            proof {
                reveal_strlit("=");
                reveal_strlit("\n");
            }
            let ghost e = self.listing().take(i + 1);
            assert(e.drop_last() =~= self.listing().take(i as int));
            assert(e.last() == (self.entries@[i as int].0@, self.entries@[i as int].1@));
            out.append(self.entries[i].0.as_str());
            out.append("=");
            out.append(self.entries[i].1.as_str());
            out.append("\n");
            assert(out@ =~= render(e));
        }
        assert(self.listing().take(n as int) =~= self.listing());
        out
    }
}

/// A line of a properties file without its newline.
pub open spec fn line_text(p: PropertyText) -> Seq<char> {
    p.0 + seq!['='] + p.1
}

proof fn lemma_pieces_extend(s: Seq<char>, t: Seq<char>)
    requires
        !t.contains('\n'),
    ensures
        pieces(s + t) == pieces(s).update(pieces(s).len() - 1, pieces(s).last() + t),
        pieces(s + t).len() == pieces(s).len(),
    decreases t.len(),
{
    lemma_pieces_nonempty(s);
    if t.len() == 0 {
        assert(s + t =~= s);
        assert(pieces(s).last() + t =~= pieces(s).last());
        assert(pieces(s).update(pieces(s).len() - 1, pieces(s).last()) =~= pieces(s));
    } else {
        let t0 = t.drop_last();
        assert(!t0.contains('\n')) by {
            if t0.contains('\n') {
                let j = choose|j: int| 0 <= j < t0.len() && t0[j] == '\n';
                assert(t[j] == '\n');
            }
        }
        lemma_pieces_extend(s, t0);
        assert((s + t).drop_last() =~= s + t0);
        assert(t.last() != '\n') by {
            assert(t[t.len() - 1] == t.last());
        }
        assert((s + t0).len() + 1 == (s + t).len());
        assert((s + t).last() == t.last());
        assert(pieces(s).last() + t0 + seq![t.last()] =~= pieces(s).last() + t);
        let p0 = pieces(s + t0);
        assert(pieces(s + t) == p0.update(p0.len() - 1, p0.last().push((s + t).last())));
        assert(p0.last() == pieces(s).last() + t0);
        assert(p0.last().push(t.last()) =~= pieces(s).last() + t);
        assert(pieces(s + t) =~= pieces(s).update(pieces(s).len() - 1, pieces(s).last() + t));
    }
}

proof fn lemma_pieces_nonempty(s: Seq<char>)
    ensures
        pieces(s).len() >= 1,
    decreases s.len(),
{
    if s.len() > 0 {
        lemma_pieces_nonempty(s.drop_last());
    }
}

proof fn lemma_line_text_one_line(p: PropertyText)
    requires
        !p.0.contains('\n'),
        !p.1.contains('\n'),
    ensures
        !line_text(p).contains('\n'),
{
    let l = line_text(p);
    if l.contains('\n') {
        let j = choose|j: int| 0 <= j < l.len() && l[j] == '\n';
        if j < p.0.len() {
            assert(p.0[j] == '\n');
        } else if j > p.0.len() {
            assert(p.1[j - p.0.len() - 1] == '\n');
        }
    }
}

/// The lines of `render(e)` are the lines of the entries, then an empty piece.
proof fn lemma_pieces_render(e: Seq<PropertyText>)
    requires
        forall|i: int|
            0 <= i < e.len() ==> !(#[trigger] e[i]).0.contains('\n') && !e[i].1.contains('\n'),
    ensures
        pieces(render(e)) == e.map_values(|p: PropertyText| line_text(p)).push(Seq::empty()),
    decreases e.len(),
{
    let ls = e.map_values(|p: PropertyText| line_text(p));
    if e.len() == 0 {
        assert(ls.push(Seq::empty()) =~= seq![Seq::<char>::empty()]);
    } else {
        let d = e.drop_last();
        lemma_pieces_render(d);
        let r = render(d);
        let l = line_text(e.last());
        assert(e[e.len() - 1] == e.last());
        lemma_line_text_one_line(e.last());
        lemma_pieces_extend(r, l);
        assert(render(e) =~= (r + l) + seq!['\n']);
        assert((r + l + seq!['\n']).drop_last() =~= r + l);
        let dl = d.map_values(|p: PropertyText| line_text(p));
        assert(pieces(r + l) =~= dl.push(l));
        assert(ls =~= dl.push(l));
    }
}

proof fn lemma_line_entry_of(k: Seq<char>, v: Seq<char>)
    requires
        storable_key(k),
        storable_value(v),
    ensures
        line_entry(line_text((k, v))) == Some((k, v)),
{
    let l = line_text((k, v));
    lemma_trim_fixed(k);
    lemma_trim_fixed(v);
    assert(!is_ws('='));
    if k.len() > 0 {
        assert(l[0] == k[0]);
    } else {
        assert(l[0] == '=');
    }
    if v.len() > 0 {
        assert(l.last() == v.last());
    } else {
        assert(l.last() == '=');
    }
    lemma_trim_fixed(l);
    assert forall|j: int| 0 <= j < k.len() implies #[trigger] l[j] != '=' by {
        assert(l[j] == k[j]);
    }
    assert(l[k.len() as int] == '=');
    lemma_first_index_at(l, '=', k.len() as int);
    assert(l.take(k.len() as int) =~= k);
    assert(l.skip(k.len() as int + 1) =~= v);
}

proof fn lemma_parse_lines_of(e: Seq<PropertyText>)
    requires
        forall|i: int|
            0 <= i < e.len() ==> storable_key((#[trigger] e[i]).0) && storable_value(e[i].1),
    ensures
        parse_lines(e.map_values(|p: PropertyText| line_text(p))) == entries_map(e),
    decreases e.len(),
{
    if e.len() > 0 {
        let d = e.drop_last();
        lemma_parse_lines_of(d);
        assert(e[e.len() - 1] == e.last());
        lemma_line_entry_of(e.last().0, e.last().1);
        let ls = e.map_values(|p: PropertyText| line_text(p));
        assert(ls.drop_last() =~= d.map_values(|p: PropertyText| line_text(p)));
    } else {
        assert(e.map_values(|p: PropertyText| line_text(p)) =~= Seq::<Seq<char>>::empty());
    }
}

/// Loading what was saved gives back the same mapping, for keys and values
/// that the file format can hold unchanged (see `storable_key` and
/// `storable_value`).
pub proof fn lemma_save_load_round_trip(p: ServerProperties)
    requires
        p.wf(),
        forall|k: Seq<char>|
            #[trigger] p@.contains_key(k) ==> storable_key(k) && storable_value(p@[k]),
    ensures
        parse_properties(render(p.listing())) == p@,
{
    let e = p.listing();
    lemma_entries_map_index(e);
    assert forall|i: int| 0 <= i < e.len() implies storable_key((#[trigger] e[i]).0)
        && storable_value(e[i].1) by {
        assert(p@.contains_key(e[i].0));
    }
    lemma_pieces_render(e);
    lemma_parse_lines_of(e);
    let ls = e.map_values(|q: PropertyText| line_text(q));
    assert(ls.push(Seq::empty()).drop_last() =~= ls);
    lemma_trim_fixed(Seq::<char>::empty());
}

/// Two sorted listings of the same mapping are the same listing.
pub proof fn lemma_sorted_unique(a: Seq<PropertyText>, b: Seq<PropertyText>)
    requires
        strictly_ascending(a),
        strictly_ascending(b),
        entries_map(a) == entries_map(b),
    ensures
        a == b,
    decreases a.len(),
{
    lemma_entries_map_index(a);
    lemma_entries_map_index(b);
    let m = entries_map(a);
    if a.len() == 0 {
        if b.len() > 0 {
            assert(m.contains_key(b[0].0));
        }
        assert(a =~= b);
    } else if b.len() == 0 {
        assert(m.contains_key(a[0].0));
    } else {
        let ka = a.last().0;
        let kb = b.last().0;
        assert(a[a.len() - 1] == a.last() && b[b.len() - 1] == b.last());
        assert(ka == kb) by {
            assert(m.contains_key(ka) && m.contains_key(kb));
            let i = choose|i: int| 0 <= i < a.len() && a[i].0 == kb;
            let j = choose|j: int| 0 <= j < b.len() && b[j].0 == ka;
            if ka != kb {
                assert(i < a.len() - 1 && j < b.len() - 1);
                assert(text_lt(kb, ka));
                assert(text_lt(ka, kb));
                lemma_text_lt_asymmetric(ka, kb);
            }
        }
        let da = a.drop_last();
        let db = b.drop_last();
        assert(strictly_ascending(da) && strictly_ascending(db));
        lemma_entries_map_index(da);
        lemma_entries_map_index(db);
        assert(!entries_map(da).contains_key(ka)) by {
            if entries_map(da).contains_key(ka) {
                let i = choose|i: int| 0 <= i < da.len() && da[i].0 == ka;
                assert(text_lt(a[i].0, a[a.len() - 1].0));
                lemma_text_lt_irreflexive(ka);
            }
        }
        assert(!entries_map(db).contains_key(kb)) by {
            if entries_map(db).contains_key(kb) {
                let i = choose|i: int| 0 <= i < db.len() && db[i].0 == kb;
                assert(text_lt(b[i].0, b[b.len() - 1].0));
                lemma_text_lt_irreflexive(kb);
            }
        }
        assert(entries_map(da) =~= m.remove(ka));
        assert(entries_map(db) =~= m.remove(kb));
        lemma_sorted_unique(da, db);
        assert(a.last().1 == m[ka] && b.last().1 == m[kb]);
        assert(a =~= da.push(a.last()));
        assert(b =~= db.push(b.last()));
    }
}

/// The saved text lists each property once, keys in strictly ascending
/// lexicographic order, and depends on the mapping alone: two sets of
/// properties that hold the same mapping, whatever order their keys were set
/// in, are saved as the same text.
pub proof fn lemma_save_sorted(p: ServerProperties, q: ServerProperties)
    requires
        p.wf(),
        q.wf(),
    ensures
        strictly_ascending(p.listing()),
        entries_map(p.listing()) == p@,
        p@ == q@ ==> render(p.listing()) == render(q.listing()),
{
    if p@ == q@ {
        lemma_sorted_unique(p.listing(), q.listing());
    }
}

/// The reference table of common settings and their defaults, used to seed
/// the properties of a new instance.
pub open spec fn common_defaults() -> Seq<PropertyText> {
    seq![
        ("server-port"@, "25565"@),
        ("max-players"@, "20"@),
        ("motd"@, "A Minecraft Server"@),
        ("gamemode"@, "survival"@),
        ("difficulty"@, "easy"@),
        ("pvp"@, "true"@),
        ("spawn-protection"@, "16"@),
        ("online-mode"@, "true"@),
        ("white-list"@, "false"@),
        ("enable-command-block"@, "false"@),
        ("spawn-monsters"@, "true"@),
        ("spawn-animals"@, "true"@),
        ("spawn-npcs"@, "true"@),
        ("allow-flight"@, "false"@),
        ("view-distance"@, "10"@),
        ("simulation-distance"@, "10"@),
        ("level-name"@, "world"@),
        ("level-seed"@, ""@),
        ("level-type"@, "minecraft:normal"@),
    ]
}

impl ServerProperties {
    /// The common settings and their default values, in a fixed order.
    pub fn get_common_properties() -> (r: Vec<(&'static str, &'static str)>)
        ensures
            r@.map_values(|p: (&'static str, &'static str)| (p.0@, p.1@)) == common_defaults(),
    {
        let r = vec![
            ("server-port", "25565"),
            ("max-players", "20"),
            ("motd", "A Minecraft Server"),
            ("gamemode", "survival"),
            ("difficulty", "easy"),
            ("pvp", "true"),
            ("spawn-protection", "16"),
            ("online-mode", "true"),
            ("white-list", "false"),
            ("enable-command-block", "false"),
            ("spawn-monsters", "true"),
            ("spawn-animals", "true"),
            ("spawn-npcs", "true"),
            ("allow-flight", "false"),
            ("view-distance", "10"),
            ("simulation-distance", "10"),
            ("level-name", "world"),
            ("level-seed", ""),
            ("level-type", "minecraft:normal"),
        ];
        assert(r@.map_values(|p: (&'static str, &'static str)| (p.0@, p.1@)) =~= common_defaults());
        r
    }
}

impl Default for ServerProperties {
    fn default() -> (r: ServerProperties)
        ensures
            r.wf(),
            r@ == Map::<Seq<char>, Seq<char>>::empty(),
    {
        ServerProperties::new()
    }
}

} // verus!
