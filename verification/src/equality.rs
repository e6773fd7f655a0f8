//! Equality of JSON values: objects compare as maps from keys to values, so
//! the order in which members are held does not matter.
//!
//! Numbers compare by their text, not as `f64` values: `1` and `1.0` are
//! different numbers here, though they are the same `f64`.  Floating-point
//! values cannot be held in verified code; the `f64` layer built on this
//! library turns number texts into `f64` values and compares those.
use vstd::prelude::*;
use vstd::std_specs::cmp::PartialEqSpecImpl;

use crate::parse::{entries_model, value_model, values_model, Value, ValueView};

verus! {

/// The index of the last member with key `k`, or -1 when there is none.
pub open spec fn last_index(s: Seq<(String, Value)>, k: Seq<char>) -> int
    decreases s.len(),
{
    if s.len() == 0 {
        -1
    } else if s.last().0@ == k {
        s.len() - 1
    } else {
        last_index(s.drop_last(), k)
    }
}

proof fn lemma_last_index(s: Seq<(String, Value)>, k: Seq<char>)
    ensures
        -1 <= last_index(s, k) < s.len(),
        last_index(s, k) >= 0 ==> s[last_index(s, k)].0@ == k,
        entries_model(s).dom().contains(k) <==> last_index(s, k) >= 0,
        last_index(s, k) >= 0 ==> entries_model(s)[k] == value_model(s[last_index(s, k)].1),
        last_index(s, k) == -1 ==> forall|m: int| 0 <= m < s.len() ==> #[trigger] s[m].0@ != k,
    decreases s.len(),
{
    if s.len() > 0 {
        lemma_last_index(s.drop_last(), k);
        if last_index(s, k) == -1 {
            assert forall|m: int| 0 <= m < s.len() implies #[trigger] s[m].0@ != k by {
                if m < s.len() - 1 {
                    assert(s[m] == s.drop_last()[m]);
                }
            }
        }
    }
}

proof fn lemma_values_model(s: Seq<Value>)
    ensures
        values_model(s).len() == s.len(),
        forall|i: int| 0 <= i < s.len() ==> #[trigger] values_model(s)[i] == value_model(s[i]),
    decreases s.len(),
{
    if s.len() > 0 {
        lemma_values_model(s.drop_last());
        assert forall|i: int| 0 <= i < s.len() implies #[trigger] values_model(s)[i] == value_model(
            s[i],
        ) by {
            if i < s.len() - 1 {
                assert(s[i] == s.drop_last()[i]);
            }
        }
    }
}

/// The index of the last member with the key `key`.
fn find_last(s: &Vec<(String, Value)>, key: &String) -> (r: Option<usize>)
    ensures
        r matches Some(i) ==> i == last_index(s@, key@),
        r is None ==> last_index(s@, key@) == -1,
{
    let mut j: usize = s.len();
    assert(s@.take(j as int) =~= s@);
    while j > 0
        invariant
            j <= s.len(),
            last_index(s@.take(j as int), key@) == last_index(s@, key@),
        decreases j,
    {
        assert(s@.take(j as int).drop_last() =~= s@.take(j - 1));
        if s[j - 1].0 == *key {
            return Some(j - 1);
        }
        j = j - 1;
    }
    None
}

/// Whether two values are equal: scalars by their contents, arrays item by
/// item, objects as maps from keys to values.
#[verifier::loop_isolation(false)]
pub fn values_equal(a: &Value, b: &Value) -> (r: bool)
    ensures
        r == (a@ == b@),
    decreases a,
{
    match (a, b) {
        (Value::Null, Value::Null) => true,
        (Value::Bool(x), Value::Bool(y)) => *x == *y,
        (Value::String(x), Value::String(y)) => *x == *y,
        // by text, not by `f64` value (see the module documentation)
        (Value::Number(x), Value::Number(y)) => *x == *y,
        (Value::Array(xs), Value::Array(ys)) => {
            proof {
                lemma_values_model(xs@);
                lemma_values_model(ys@);
            }
            if xs.len() != ys.len() {
                assert(values_model(xs@).len() != values_model(ys@).len());
                return false;
            }
            let mut i: usize = 0;
            while i < xs.len()
                invariant
                    i <= xs.len() == ys.len(),
                    values_model(xs@).len() == xs.len(),
                    values_model(ys@).len() == ys.len(),
                    forall|m: int| 0 <= m < xs.len() ==> #[trigger] values_model(xs@)[m] == value_model(xs@[m]),
                    forall|m: int| 0 <= m < ys.len() ==> #[trigger] values_model(ys@)[m] == value_model(ys@[m]),
                    forall|m: int| 0 <= m < i ==> #[trigger] value_model(xs@[m]) == value_model(ys@[m]),
                decreases xs.len() - i,
            {
                assert(decreases_to!(*a => xs@[i as int]));
                if !values_equal(&xs[i], &ys[i]) {
                    assert(values_model(xs@)[i as int] != values_model(ys@)[i as int]);
                    return false;
                }
                i = i + 1;
            }
            assert(values_model(xs@) =~= values_model(ys@));
            true
        },
        (Value::Object(ms), Value::Object(ns)) => {
            let ghost ma = entries_model(ms@);
            let ghost mb = entries_model(ns@);
            let mut i: usize = 0;
            while i < ms.len()
                invariant
                    i <= ms.len(),
                    ma == entries_model(ms@),
                    mb == entries_model(ns@),
                    forall|m: int|
                        0 <= m < i ==> #[trigger] mb.dom().contains(ms@[m].0@) && ma[ms@[m].0@]
                            == mb[ms@[m].0@],
                decreases ms.len() - i,
            {
                let key = &ms[i].0;
                proof {
                    lemma_last_index(ms@, key@);
                    lemma_last_index(ns@, key@);
                    assert(ma.dom().contains(key@));
                }
                let ia = find_last(ms, key);
                let ib = find_last(ns, key);
                match (ia, ib) {
                    (Some(ia), Some(ib)) => {
                        assert(decreases_to!(*a => ms@[ia as int].1));
                        if !values_equal(&ms[ia].1, &ns[ib].1) {
                            assert(ma[key@] != mb[key@]);
                            return false;
                        }
                        assert(ms@[i as int].0@ == key@);
                        assert(ma[key@] == mb[key@]);
                        assert(mb.dom().contains(key@));
                    },
                    _ => {
                        return false;
                    },
                }
                let ghost old_i = i;
                i = i + 1;
                assert forall|m: int| 0 <= m < i implies #[trigger] mb.dom().contains(ms@[m].0@)
                    && ma[ms@[m].0@] == mb[ms@[m].0@] by {
                    if m < old_i {
                        assert(mb.dom().contains(ms@[m].0@));
                    }
                }
            }
            let mut j: usize = 0;
            while j < ns.len()
                invariant
                    j <= ns.len(),
                    ma == entries_model(ms@),
                    mb == entries_model(ns@),
                    forall|m: int| 0 <= m < j ==> #[trigger] ma.dom().contains(ns@[m].0@),
                decreases ns.len() - j,
            {
                let key = &ns[j].0;
                proof {
                    lemma_last_index(ms@, key@);
                    lemma_last_index(ns@, key@);
                }
                if find_last(ms, key).is_none() {
                    return false;
                }
                j = j + 1;
            }
            proof {
                assert forall|k: Seq<char>| #![trigger ma.dom().contains(k)]
                    ma.dom().contains(k) implies mb.dom().contains(k) && ma[k] == mb[k] by {
                    lemma_last_index(ms@, k);
                    let m = last_index(ms@, k);
                    assert(ms@[m].0@ == k);
                    assert(mb.dom().contains(ms@[m].0@));
                }
                assert forall|k: Seq<char>| #![trigger mb.dom().contains(k)]
                    mb.dom().contains(k) implies ma.dom().contains(k) by {
                    lemma_last_index(ns@, k);
                    let m = last_index(ns@, k);
                    assert(ns@[m].0@ == k);
                    assert(ma.dom().contains(ns@[m].0@));
                }
                assert(ma.dom() =~= mb.dom());
                assert(ma =~= mb);
            }
            true
        },
        _ => false,
    }
}

impl PartialEq for Value {
    fn eq(&self, other: &Self) -> (r: bool) {
        values_equal(self, other)
    }
}

impl PartialEqSpecImpl for Value {
    open spec fn obeys_eq_spec() -> bool {
        true
    }

    open spec fn eq_spec(&self, other: &Value) -> bool {
        self@ == other@
    }
}

} // verus!
