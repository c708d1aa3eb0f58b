//! The parsed value tree and its mathematical model.

use vstd::prelude::*;

verus! {

broadcast use vstd::std_specs::vec::group_vec_axioms, vstd::seq::group_seq_axioms, vstd::utf8::char_u32_cast;

/// A parsed numeric literal, kept exactly as its decimal components: the
/// sign, the integer digits, the fraction digits and the signed exponent
/// digits.  Each digit holds its value, 0 through 9.  An empty fraction or
/// exponent digit vector means the literal had no such part.
#[derive(Debug)]
pub struct Number {
    pub neg: bool,
    pub int_digits: Vec<u8>,
    pub frac_digits: Vec<u8>,
    pub exp_neg: bool,
    pub exp_digits: Vec<u8>,
}

/// The model of a [`Number`]: the same components as sequences.
pub struct SpecNumber {
    pub neg: bool,
    pub int_digits: Seq<u8>,
    pub frac_digits: Seq<u8>,
    pub exp_neg: bool,
    pub exp_digits: Seq<u8>,
}

/// The parsed result: a tagged union over objects, arrays, strings,
/// numbers and the three literal words.  Escapes in strings are already
/// resolved; an object is an ordered-by-key mapping, its members standing
/// in strictly increasing lexicographic key order with the last write for
/// a duplicate key having won.
#[derive(Debug)]
pub enum Value {
    Object(Vec<(String, Value)>),
    Array(Vec<Value>),
    String(String),
    Number(Number),
    True,
    False,
    Null,
}

/// The model of a [`Value`]: the same tree over sequences.
pub enum SpecValue {
    Object(Seq<(Seq<char>, SpecValue)>),
    Array(Seq<SpecValue>),
    Str(Seq<char>),
    Num(SpecNumber),
    True,
    False,
    Null,
}

impl Number {
    /// The model of this number.
    pub open spec fn view(self) -> SpecNumber {
        SpecNumber {
            neg: self.neg,
            int_digits: self.int_digits@,
            frac_digits: self.frac_digits@,
            exp_neg: self.exp_neg,
            exp_digits: self.exp_digits@,
        }
    }
}

impl Value {
    /// The model of this value.
    pub open spec fn view(self) -> SpecValue
        decreases self,
    {
        match self {
            Value::Object(ps) => SpecValue::Object(
                Seq::new(
                    ps@.len(),
                    |k: int|
                        if 0 <= k < ps@.len() {
                            (ps@[k].0@, ps@[k].1.view())
                        } else {
                            (Seq::empty(), SpecValue::Null)
                        },
                ),
            ),
            Value::Array(vs) => SpecValue::Array(
                Seq::new(
                    vs@.len(),
                    |k: int|
                        if 0 <= k < vs@.len() {
                            vs@[k].view()
                        } else {
                            SpecValue::Null
                        },
                ),
            ),
            Value::String(s) => SpecValue::Str(s@),
            Value::Number(n) => SpecValue::Num(n.view()),
            Value::True => SpecValue::True,
            Value::False => SpecValue::False,
            Value::Null => SpecValue::Null,
        }
    }
}

impl SpecNumber {
    /// All digits hold values 0 through 9, and the integer part is not empty.
    pub open spec fn wf(self) -> bool {
        &&& self.int_digits.len() >= 1
        &&& forall|k: int| 0 <= k < self.int_digits.len() ==> self.int_digits[k] < 10
        &&& forall|k: int| 0 <= k < self.frac_digits.len() ==> self.frac_digits[k] < 10
        &&& forall|k: int| 0 <= k < self.exp_digits.len() ==> self.exp_digits[k] < 10
        &&& (self.exp_digits.len() == 0 ==> !self.exp_neg)
    }
}

/// Lexicographic order on character sequences from position `i` on, by
/// code point: the order `BTreeMap<String, _>` keys carry.
pub open spec fn lex_lt_from(a: Seq<char>, b: Seq<char>, i: int) -> bool
    decreases a.len() - i,
{
    if i >= b.len() {
        false
    } else if i >= a.len() {
        true
    } else if (a[i] as u32) < (b[i] as u32) {
        true
    } else if (b[i] as u32) < (a[i] as u32) {
        false
    } else {
        lex_lt_from(a, b, i + 1)
    }
}

/// Strict lexicographic order on character sequences, by code point.
pub open spec fn lex_lt(a: Seq<char>, b: Seq<char>) -> bool {
    lex_lt_from(a, b, 0)
}

/// No key occurs twice.
pub open spec fn unique_keys(ps: Seq<(Seq<char>, SpecValue)>) -> bool {
    forall|a: int, b: int| 0 <= a < b < ps.len() ==> ps[a].0 != ps[b].0
}

/// Keys stand in strictly increasing lexicographic order.
pub open spec fn sorted_keys(ps: Seq<(Seq<char>, SpecValue)>) -> bool {
    forall|a: int, b: int| 0 <= a < b < ps.len() ==> lex_lt(ps[a].0, ps[b].0)
}

impl SpecValue {
    /// Well-formedness of a parsed tree: every object holds its members in
    /// strictly increasing lexicographic key order (so each key occurs
    /// once) and every number is well formed, recursively.
    pub open spec fn wf(self) -> bool
        decreases self,
    {
        match self {
            SpecValue::Object(ps) => sorted_keys(ps) && wf_members(ps),
            SpecValue::Array(vs) => wf_elems(vs),
            SpecValue::Num(n) => n.wf(),
            _ => true,
        }
    }
}

/// Nothing is lexicographically below itself.
pub proof fn lemma_lex_irrefl(a: Seq<char>, i: int)
    ensures
        !lex_lt_from(a, a, i),
    decreases a.len() - i,
{
    if i < a.len() {
        lemma_lex_irrefl(a, i + 1);
    }
}

/// The lexicographic order is asymmetric.
pub proof fn lemma_lex_asym(a: Seq<char>, b: Seq<char>, i: int)
    ensures
        lex_lt_from(a, b, i) ==> !lex_lt_from(b, a, i),
    decreases a.len() - i,
{
    if i < a.len() && i < b.len() && !((a[i] as u32) < (b[i] as u32)) && !((b[i] as u32) < (
    a[i] as u32)) {
        lemma_lex_asym(a, b, i + 1);
    }
}

/// Two sequences are lexicographically ordered one way or the other, or
/// equal.
pub proof fn lemma_lex_connex(a: Seq<char>, b: Seq<char>)
    ensures
        a == b || lex_lt(a, b) || lex_lt(b, a),
{
    lemma_lex_connex_from(a, b, 0);
    if !lex_lt(a, b) && !lex_lt(b, a) {
        assert(a =~= b);
    }
}

proof fn lemma_lex_connex_from(a: Seq<char>, b: Seq<char>, i: int)
    requires
        0 <= i <= a.len(),
        i <= b.len(),
    ensures
        lex_lt_from(a, b, i) || lex_lt_from(b, a, i) || (a.len() == b.len() && forall|m: int|
            i <= m < a.len() ==> a[m] == b[m]),
    decreases a.len() - i,
{
    if i < a.len() && i < b.len() && !((a[i] as u32) < (b[i] as u32)) && !((b[i] as u32) < (
    a[i] as u32)) {
        vstd::utf8::char_u32_cast(a[i], a[i] as u32);
        vstd::utf8::char_u32_cast(b[i], b[i] as u32);
        assert(a[i] == b[i]);
        lemma_lex_connex_from(a, b, i + 1);
    }
}

/// The lexicographic order is transitive.
pub proof fn lemma_lex_trans(a: Seq<char>, b: Seq<char>, c: Seq<char>)
    ensures
        lex_lt(a, b) && lex_lt(b, c) ==> lex_lt(a, c),
{
    lemma_lex_trans_from(a, b, c, 0);
}

proof fn lemma_lex_trans_from(a: Seq<char>, b: Seq<char>, c: Seq<char>, i: int)
    ensures
        lex_lt_from(a, b, i) && lex_lt_from(b, c, i) ==> lex_lt_from(a, c, i),
    decreases b.len() - i,
{
    if i < b.len() {
        lemma_lex_trans_from(a, b, c, i + 1);
    }
}

/// Lexicographically ordered sequences differ.
pub proof fn lemma_lex_ne(a: Seq<char>, b: Seq<char>)
    ensures
        lex_lt(a, b) ==> a != b,
{
    lemma_lex_irrefl(a, 0);
}

/// Sorted keys are unique keys.
pub proof fn lemma_sorted_unique(ps: Seq<(Seq<char>, SpecValue)>)
    requires
        sorted_keys(ps),
    ensures
        unique_keys(ps),
{
    assert forall|a: int, b: int| 0 <= a < b < ps.len() implies ps[a].0 != ps[b].0 by {
        assert(lex_lt(ps[a].0, ps[b].0));
        lemma_lex_ne(ps[a].0, ps[b].0);
    }
}

/// Every element of the sequence is well formed.
pub open spec fn wf_elems(vs: Seq<SpecValue>) -> bool
    decreases vs,
{
    if vs.len() == 0 {
        true
    } else {
        vs[0].wf() && wf_elems(vs.drop_first())
    }
}

/// Every member value of the sequence is well formed.
pub open spec fn wf_members(ps: Seq<(Seq<char>, SpecValue)>) -> bool
    decreases ps,
{
    if ps.len() == 0 {
        true
    } else {
        ps[0].1.wf() && wf_members(ps.drop_first())
    }
}

/// [`wf_elems`] says exactly that each element is well formed.
pub proof fn lemma_wf_elems(vs: Seq<SpecValue>)
    ensures
        wf_elems(vs) <==> (forall|k: int| 0 <= k < vs.len() ==> #[trigger] vs[k].wf()),
    decreases vs.len(),
{
    if vs.len() > 0 {
        lemma_wf_elems(vs.drop_first());
        if wf_elems(vs) {
            assert forall|k: int| 0 <= k < vs.len() implies #[trigger] vs[k].wf() by {
                if k > 0 {
                    assert(vs.drop_first()[k - 1].wf());
                }
            }
        }
        if forall|k: int| 0 <= k < vs.len() ==> #[trigger] vs[k].wf() {
            assert forall|k: int|
                0 <= k < vs.drop_first().len() implies #[trigger] vs.drop_first()[k].wf() by {
                assert(vs.drop_first()[k] == vs[k + 1]);
                assert(vs[k + 1].wf());
            }
            assert(vs[0].wf());
            assert(wf_elems(vs.drop_first()));
            assert(wf_elems(vs));
        }
    }
}

/// [`wf_members`] says exactly that each member value is well formed.
pub proof fn lemma_wf_members(ps: Seq<(Seq<char>, SpecValue)>)
    ensures
        wf_members(ps) <==> (forall|k: int| 0 <= k < ps.len() ==> #[trigger] ps[k].1.wf()),
    decreases ps.len(),
{
    if ps.len() > 0 {
        lemma_wf_members(ps.drop_first());
        if wf_members(ps) {
            assert forall|k: int| 0 <= k < ps.len() implies #[trigger] ps[k].1.wf() by {
                if k > 0 {
                    assert(ps.drop_first()[k - 1].1.wf());
                }
            }
        }
        if forall|k: int| 0 <= k < ps.len() ==> #[trigger] ps[k].1.wf() {
            assert forall|k: int|
                0 <= k < ps.drop_first().len() implies #[trigger] ps.drop_first()[k].1.wf() by {
                assert(ps.drop_first()[k] == ps[k + 1]);
                assert(ps[k + 1].1.wf());
            }
            assert(ps[0].1.wf());
            assert(wf_members(ps.drop_first()));
            assert(wf_members(ps));
        }
    }
}

/// Member insertion into a key-sorted member sequence, with
/// last-write-wins: an existing key has its value replaced in place, a new
/// key enters at its lexicographic position.
pub open spec fn insert_pair(
    ps: Seq<(Seq<char>, SpecValue)>,
    key: Seq<char>,
    val: SpecValue,
) -> Seq<(Seq<char>, SpecValue)>
    decreases ps.len(),
{
    if ps.len() == 0 {
        seq![(key, val)]
    } else if ps[0].0 == key {
        seq![(key, val)] + ps.drop_first()
    } else if lex_lt(key, ps[0].0) {
        seq![(key, val)] + ps
    } else {
        seq![ps[0]] + insert_pair(ps.drop_first(), key, val)
    }
}

/// The models of an array's elements, in order.
pub open spec fn arr_view(vs: Seq<Value>) -> Seq<SpecValue> {
    vs.map(|k: int, v: Value| v.view())
}

/// The models of an object's members, in order.
pub open spec fn obj_view(ps: Seq<(String, Value)>) -> Seq<(Seq<char>, SpecValue)> {
    ps.map(|k: int, p: (String, Value)| (p.0@, p.1.view()))
}

pub proof fn lemma_array_view(v: Vec<Value>)
    ensures
        Value::Array(v).view() == SpecValue::Array(arr_view(v@)),
{
    match Value::Array(v).view() {
        SpecValue::Array(a) => {
            assert(a =~= arr_view(v@));
        },
        _ => {
            assert(false);
        },
    }
}

pub proof fn lemma_object_view(v: Vec<(String, Value)>)
    ensures
        Value::Object(v).view() == SpecValue::Object(obj_view(v@)),
{
    match Value::Object(v).view() {
        SpecValue::Object(a) => {
            assert(a =~= obj_view(v@));
        },
        _ => {
            assert(false);
        },
    }
}

/// Inserting a key that stands at position `i`, every earlier key being
/// lexicographically below it, replaces that member in place.
pub proof fn lemma_insert_pair_found(
    m: Seq<(Seq<char>, SpecValue)>,
    i: int,
    key: Seq<char>,
    v: SpecValue,
)
    requires
        0 <= i < m.len(),
        m[i].0 == key,
        forall|k: int| 0 <= k < i ==> lex_lt(#[trigger] m[k].0, key),
    ensures
        insert_pair(m, key, v) == m.update(i, (key, v)),
    decreases i,
{
    if i == 0 {
        assert(seq![(key, v)] + m.drop_first() =~= m.update(0, (key, v)));
    } else {
        assert(lex_lt(m[0].0, key));
        lemma_lex_ne(m[0].0, key);
        lemma_lex_asym(m[0].0, key, 0);
        assert forall|k: int| 0 <= k < i - 1 implies lex_lt(
            #[trigger] m.drop_first()[k].0,
            key,
        ) by {
            assert(m.drop_first()[k] == m[k + 1]);
            assert(lex_lt(m[k + 1].0, key));
        }
        lemma_insert_pair_found(m.drop_first(), i - 1, key, v);
        assert(seq![m[0]] + m.drop_first().update(i - 1, (key, v)) =~= m.update(i, (key, v)));
    }
}

/// Inserting a key that does not occur, every earlier key below it and the
/// key at `i` (if any) above it, places the new member at position `i`.
pub proof fn lemma_insert_pair_at(
    m: Seq<(Seq<char>, SpecValue)>,
    i: int,
    key: Seq<char>,
    v: SpecValue,
)
    requires
        0 <= i <= m.len(),
        forall|k: int| 0 <= k < i ==> lex_lt(#[trigger] m[k].0, key),
        i < m.len() ==> lex_lt(key, m[i].0),
    ensures
        insert_pair(m, key, v) == m.subrange(0, i) + seq![(key, v)] + m.subrange(
            i,
            m.len() as int,
        ),
    decreases i,
{
    if i == 0 {
        if m.len() == 0 {
            assert(seq![(key, v)] =~= m.subrange(0, 0) + seq![(key, v)] + m.subrange(
                0,
                m.len() as int,
            ));
        } else {
            lemma_lex_ne(key, m[0].0);
            assert(m.subrange(0, m.len() as int) =~= m);
            assert(seq![(key, v)] + m =~= m.subrange(0, 0) + seq![(key, v)] + m.subrange(
                0,
                m.len() as int,
            ));
        }
    } else {
        assert(lex_lt(m[0].0, key));
        lemma_lex_ne(m[0].0, key);
        lemma_lex_asym(m[0].0, key, 0);
        assert forall|k: int| 0 <= k < i - 1 implies lex_lt(
            #[trigger] m.drop_first()[k].0,
            key,
        ) by {
            assert(m.drop_first()[k] == m[k + 1]);
            assert(lex_lt(m[k + 1].0, key));
        }
        if i < m.len() {
            assert(m.drop_first()[i - 1] == m[i]);
        }
        lemma_insert_pair_at(m.drop_first(), i - 1, key, v);
        assert(seq![m[0]] + (m.drop_first().subrange(0, i - 1) + seq![(key, v)]
            + m.drop_first().subrange(i - 1, m.len() - 1)) =~= m.subrange(0, i) + seq![
            (key, v),
        ] + m.subrange(i, m.len() as int));
    }
}

/// Insertion preserves sorted keys and well-formed member values, and
/// introduces no key beyond the inserted one.
pub proof fn lemma_insert_pair_wf(m: Seq<(Seq<char>, SpecValue)>, key: Seq<char>, v: SpecValue)
    requires
        sorted_keys(m),
        forall|k: int| 0 <= k < m.len() ==> #[trigger] m[k].1.wf(),
        v.wf(),
    ensures
        sorted_keys(insert_pair(m, key, v)),
        forall|k: int|
            0 <= k < insert_pair(m, key, v).len() ==> #[trigger] insert_pair(m, key, v)[k].1.wf(),
        forall|k: int|
            0 <= k < insert_pair(m, key, v).len() ==> (#[trigger] insert_pair(m, key, v)[k].0
                == key || exists|k2: int| 0 <= k2 < m.len() && m[k2].0 == insert_pair(
                m,
                key,
                v,
            )[k].0),
    decreases m.len(),
{
    let r = insert_pair(m, key, v);
    if m.len() == 0 {
    } else if m[0].0 == key {
        assert forall|a: int, b: int| 0 <= a < b < r.len() implies lex_lt(r[a].0, r[b].0) by {
            if a == 0 {
                assert(r[b].0 == m[b].0);
                assert(lex_lt(m[0].0, m[b].0));
            } else {
                assert(r[a].0 == m[a].0 && r[b].0 == m[b].0);
                assert(lex_lt(m[a].0, m[b].0));
            }
        }
        assert forall|k: int| 0 <= k < r.len() implies #[trigger] r[k].1.wf() by {
            if k > 0 {
                assert(r[k] == m[k]);
                assert(m[k].1.wf());
            }
        }
    } else if lex_lt(key, m[0].0) {
        assert forall|a: int, b: int| 0 <= a < b < r.len() implies lex_lt(r[a].0, r[b].0) by {
            if a == 0 {
                assert(r[b].0 == m[b - 1].0);
                if b > 1 {
                    assert(lex_lt(m[0].0, m[b - 1].0));
                    lemma_lex_trans(key, m[0].0, m[b - 1].0);
                }
            } else {
                assert(r[a].0 == m[a - 1].0 && r[b].0 == m[b - 1].0);
                assert(lex_lt(m[a - 1].0, m[b - 1].0));
            }
        }
        assert forall|k: int| 0 <= k < r.len() implies #[trigger] r[k].1.wf() by {
            if k > 0 {
                assert(r[k] == m[k - 1]);
                assert(m[k - 1].1.wf());
            }
        }
    } else {
        lemma_lex_connex(m[0].0, key);
        assert(lex_lt(m[0].0, key));
        let d = m.drop_first();
        assert forall|a: int, b: int| 0 <= a < b < d.len() implies lex_lt(
            #[trigger] d[a].0,
            #[trigger] d[b].0,
        ) by {
            assert(d[a] == m[a + 1] && d[b] == m[b + 1]);
            assert(lex_lt(m[a + 1].0, m[b + 1].0));
        }
        assert forall|k: int| 0 <= k < d.len() implies #[trigger] d[k].1.wf() by {
            assert(d[k] == m[k + 1]);
            assert(m[k + 1].1.wf());
        }
        lemma_insert_pair_wf(d, key, v);
        let r2 = insert_pair(d, key, v);
        assert forall|a: int, b: int| 0 <= a < b < r.len() implies lex_lt(r[a].0, r[b].0) by {
            if a == 0 {
                assert(r[b].0 == r2[b - 1].0);
                if r2[b - 1].0 == key {
                    assert(lex_lt(m[0].0, key));
                } else {
                    let k2 = choose|k2: int| 0 <= k2 < d.len() && d[k2].0 == r2[b - 1].0;
                    assert(d[k2] == m[k2 + 1]);
                    assert(lex_lt(m[0].0, m[k2 + 1].0));
                }
            } else {
                assert(r[a].0 == r2[a - 1].0 && r[b].0 == r2[b - 1].0);
                assert(lex_lt(r2[a - 1].0, r2[b - 1].0));
            }
        }
        assert forall|k: int| 0 <= k < r.len() implies #[trigger] r[k].1.wf() by {
            if k > 0 {
                assert(r[k] == r2[k - 1]);
                assert(r2[k - 1].1.wf());
            }
        }
        assert forall|k: int| 0 <= k < r.len() implies (#[trigger] r[k].0 == key || exists|
            k2: int,
        | 0 <= k2 < m.len() && m[k2].0 == r[k].0) by {
            if k == 0 {
                assert(m[0].0 == r[0].0);
            } else {
                assert(r[k].0 == r2[k - 1].0);
                if r2[k - 1].0 != key {
                    let k2 = choose|k2: int| 0 <= k2 < d.len() && d[k2].0 == r2[k - 1].0;
                    assert(d[k2] == m[k2 + 1]);
                    assert(m[k2 + 1].0 == r[k].0);
                }
            }
        }
    }
}

/// An array of well-formed elements is well formed.
pub proof fn lemma_array_wf(vs: Seq<SpecValue>)
    requires
        forall|k: int| 0 <= k < vs.len() ==> #[trigger] vs[k].wf(),
    ensures
        SpecValue::Array(vs).wf(),
{
    lemma_wf_elems(vs);
}

/// An object with sorted keys and well-formed values is well formed.
pub proof fn lemma_object_wf(ps: Seq<(Seq<char>, SpecValue)>)
    requires
        sorted_keys(ps),
        forall|k: int| 0 <= k < ps.len() ==> #[trigger] ps[k].1.wf(),
    ensures
        SpecValue::Object(ps).wf(),
{
    lemma_wf_members(ps);
}

} // verus!

