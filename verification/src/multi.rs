//! Several values at once: arguments and results of calls.
use crate::error::{Error, ErrorModel};
use crate::value::{host_values, HostValue, Value};
use std::collections::VecDeque;
use vstd::prelude::*;

verus! {

/// Multiple Luau values used for both argument passing and also for multiple return values.
#[derive(Debug)]
pub struct MultiValue {
    pub values: VecDeque<Value>,
}

/// The value at a place, or `nil` behind the last one.
pub open spec fn value_or_nil(v: Seq<HostValue>, i: int) -> HostValue {
    if 0 <= i < v.len() {
        v[i]
    } else {
        HostValue::Nil
    }
}

impl MultiValue {
    pub open spec fn view(&self) -> Seq<HostValue> {
        host_values(self.values@)
    }

    /// Creates an empty `MultiValue` containing no values.
    pub fn new() -> (r: Self)
        ensures
            r@ == Seq::<HostValue>::empty(),
    {
        let r = MultiValue { values: VecDeque::new() };
        assert(r@ =~= Seq::<HostValue>::empty());
        r
    }

    /// Creates an empty `MultiValue` container with space for at least `capacity` elements.
    pub fn with_capacity(capacity: usize) -> (r: Self)
        ensures
            r@ == Seq::<HostValue>::empty(),
    {
        let r = MultiValue { values: VecDeque::with_capacity(capacity) };
        assert(r@ =~= Seq::<HostValue>::empty());
        r
    }

    /// Number of values.
    pub fn len(&self) -> (r: usize)
        ensures
            r == self@.len(),
    {
        self.values.len()
    }

    /// Adds a value behind the others.
    pub fn push_back(&mut self, value: Value)
        ensures
            final(self)@ == old(self)@.push(value@),
    {
        let ghost before = self.values@;
        self.values.push_back(value);
        assert(host_values(self.values@) =~= host_values(before).push(value@));
    }

    /// Adds a value in front of the others.
    pub fn push_front(&mut self, value: Value)
        ensures
            final(self)@ == seq![value@] + old(self)@,
    {
        let ghost before = self.values@;
        self.values.push_front(value);
        assert(host_values(self.values@) =~= seq![value@] + host_values(before));
    }

    /// Takes the first value; `nil` where there is none.
    pub fn pop_front_or_nil(&mut self) -> (r: Value)
        ensures
            r@ == value_or_nil(old(self)@, 0),
            final(self)@ == (if old(self)@.len() > 0 {
                old(self)@.skip(1)
            } else {
                old(self)@
            }),
    {
        let ghost before = self.values@;
        match self.values.pop_front() {
            Some(value) => {
                assert(host_values(self.values@) =~= host_values(before).skip(1));
                value
            },
            None => Value::Nil,
        }
    }

    /// Creates a `MultiValue` container from vector of values.
    pub fn from_vec(vec: Vec<Value>) -> (r: Self)
        ensures
            r@ == host_values(vec@),
    {
        let ghost all = vec@;
        let mut rest = vec;
        let mut values: VecDeque<Value> = VecDeque::new();
        while rest.len() > 0
            invariant
                rest@ + values@ == all,
            decreases rest.len(),
        {
            let ghost before = rest@;
            let ghost held = values@;
            match rest.pop() {
                Some(value) => {
                    values.push_front(value);
                    assert(before =~= rest@.push(value));
                    assert(rest@ + values@ =~= before + held);
                },
                None => {},
            }
        }
        assert(values@ =~= all);
        MultiValue { values }
    }

    /// Consumes the `MultiValue` and returns a vector of values.
    pub fn into_vec(self) -> (r: Vec<Value>)
        ensures
            host_values(r@) == self@,
    {
        let ghost all = self.values@;
        let mut rest = self.values;
        let mut out: Vec<Value> = Vec::new();
        while rest.len() > 0
            invariant
                out@ + rest@ == all,
            decreases rest.len(),
        {
            let ghost before = rest@;
            let ghost held = out@;
            match rest.pop_front() {
                Some(value) => {
                    out.push(value);
                    assert(before =~= seq![value] + rest@);
                    assert(out@ + rest@ =~= held + before);
                },
                None => {},
            }
        }
        assert(out@ =~= all);
        out
    }

    /// Collects converted values, or the first failure among them.
    pub fn from_results(results: VecDeque<Result<Value, Error>>) -> (r: Result<Self, Error>)
        ensures
            match r {
                Ok(m) => collected(results@, results@.len() as int) == Ok::<_, ErrorModel>(m@),
                Err(e) => collected(results@, results@.len() as int) == Err::<Seq<HostValue>, _>(
                    e@,
                ),
            },
    {
        let ghost all = results@;
        let mut rest = results;
        let mut out = MultiValue::new();
        let ghost mut done: int = 0;
        assert(all.skip(0) =~= all);
        while rest.len() > 0
            invariant
                0 <= done <= all.len(),
                all == results@,
                rest@ == all.skip(done),
                collected(all, done) == Ok::<_, ErrorModel>(out@),
            decreases rest.len(),
        {
            let ghost before = rest@;
            match rest.pop_front() {
                Some(item) => {
                    assert(before[0] == all[done]);
                    assert(rest@ =~= all.skip(done + 1));
                    match item {
                        Ok(value) => {
                            out.push_back(value);
                        },
                        Err(e) => {
                            proof {
                                assert(all[done] == Err::<Value, Error>(e));
                                assert(collected(all, done + 1) == Err::<
                                    Seq<HostValue>,
                                    ErrorModel,
                                >(e@));
                                lemma_collected_fault(all, done + 1, all.len() as int);
                            }
                            return Err(e);
                        },
                    }
                    proof {
                        done = done + 1;
                    }
                },
                None => {},
            }
        }
        assert(done == all.len());
        Ok(out)
    }

    /// Puts values in front of others, in their order: the fixed part of a
    /// list of arguments before its open end.
    pub fn prepend(self, first: Vec<Value>) -> (r: Self)
        ensures
            r@ == host_values(first@) + self@,
    {
        let ghost all = host_values(first@) + self@;
        let mut rest = first;
        let mut out = self;
        while rest.len() > 0
            invariant
                host_values(rest@) + out@ == all,
            decreases rest.len(),
        {
            let ghost before = rest@;
            let ghost held = out@;
            match rest.pop() {
                Some(value) => {
                    out.push_front(value);
                    assert(host_values(before) =~= host_values(rest@).push(value@));
                    assert(host_values(rest@) + out@ =~= host_values(before) + held);
                },
                None => {},
            }
        }
        assert(host_values(rest@) + out@ =~= out@);
        out
    }

    /// Takes the first `n` values, with `nil` for those that are not there:
    /// the fixed part of a list of arguments. The others stay.
    pub fn take_fixed(&mut self, n: usize) -> (r: Vec<Value>)
        ensures
            host_values(r@) == Seq::new(n as nat, |i: int| value_or_nil(old(self)@, i)),
            final(self)@ == (if n <= old(self)@.len() {
                old(self)@.skip(n as int)
            } else {
                Seq::empty()
            }),
    {
        let ghost all = self@;
        let mut out: Vec<Value> = Vec::new();
        let mut i: usize = 0;
        assert(all.skip(0) =~= all);
        while i < n
            invariant
                i <= n,
                out@.len() == i,
                self@ == (if i <= all.len() {
                    all.skip(i as int)
                } else {
                    Seq::empty()
                }),
                forall|k: int| 0 <= k < i ==> (#[trigger] out@[k])@ == value_or_nil(all, k),
            decreases n - i,
        {
            let ghost before = self@;
            let value = self.pop_front_or_nil();
            proof {
                if i < all.len() {
                    assert(before[0] == all[i as int]);
                    assert(all.skip(i as int).skip(1) =~= all.skip(i + 1));
                } else if i == all.len() {
                    assert(all.skip(i as int) =~= Seq::empty());
                }
            }
            out.push(value);
            i += 1;
        }
        assert(host_values(out@) =~= Seq::new(n as nat, |i: int| value_or_nil(all, i)));
        out
    }
}

/// The values among the first `n` results, or the first failure among them.
pub open spec fn collected(results: Seq<Result<Value, Error>>, n: int) -> Result<
    Seq<HostValue>,
    ErrorModel,
>
    decreases n,
{
    if n <= 0 {
        Ok(Seq::empty())
    } else {
        match (collected(results, n - 1), results[n - 1]) {
            (Err(e), _) => Err(e),
            (Ok(_), Err(e)) => Err(e@),
            (Ok(list), Ok(value)) => Ok(list.push(value@)),
        }
    }
}

/// A failure among the first `n` results is the failure of all of them.
proof fn lemma_collected_fault(results: Seq<Result<Value, Error>>, n: int, all: int)
    requires
        n <= all,
        collected(results, n) is Err,
    ensures
        collected(results, all) == collected(results, n),
    decreases all,
{
    if n < all && all > 0 {
        lemma_collected_fault(results, n, all - 1);
    }
}

/// A result as values: the value on success, else `nil` and the error.
pub fn result_values(result: Result<Value, Value>) -> (r: MultiValue)
    ensures
        r@ == (match result {
            Ok(value) => seq![value@],
            Err(error) => seq![HostValue::Nil, error@],
        }),
{
    let mut out = MultiValue::new();
    match result {
        Ok(value) => {
            out.push_back(value);
        },
        Err(error) => {
            out.push_back(Value::Nil);
            out.push_back(error);
        },
    }
    assert(out@ =~= (match result {
        Ok(value) => seq![value@],
        Err(error) => seq![HostValue::Nil, error@],
    }));
    out
}

/// The place on a stack of the fixed argument number `k` of `n` arguments,
/// counted from the top; `None` where it was not given.
pub fn argument_index(n: i32, k: i32) -> (r: Option<i32>)
    requires
        0 <= n,
        0 <= k,
    ensures
        match r {
            Some(i) => k < n && i == k - n,
            None => k >= n,
        },
{
    if k < n {
        Some(k - n)
    } else {
        None
    }
}

/// Wraps a variable number of `T`s.
#[derive(Debug)]
pub struct Variadic<T> {
    pub items: Vec<T>,
}

impl<T> Variadic<T> {
    /// Creates an empty `Variadic` wrapper containing no values.
    pub fn new() -> (r: Self)
        ensures
            r.items@ == Seq::<T>::empty(),
    {
        Variadic { items: Vec::new() }
    }

    /// Creates an empty `Variadic` container with space for at least `capacity` elements.
    pub fn with_capacity(capacity: usize) -> (r: Self)
        ensures
            r.items@ == Seq::<T>::empty(),
    {
        Variadic { items: Vec::with_capacity(capacity) }
    }
}

/// Fixed arguments that were put in front are those that are taken out again,
/// and the others are left.
pub proof fn law_fixed_arguments_come_back(first: Seq<HostValue>, rest: Seq<HostValue>)
    ensures
        Seq::new(first.len(), |i: int| value_or_nil(first + rest, i)) == first,
        (first + rest).skip(first.len() as int) == rest,
{
    assert(Seq::new(first.len(), |i: int| value_or_nil(first + rest, i)) =~= first);
    assert((first + rest).skip(first.len() as int) =~= rest);
}

/// Converted values are collected one for one and in their order; what fails
/// is the first failure among them, and it fails only where there is one.
pub proof fn law_results_are_collected(results: Seq<Result<Value, Error>>, n: int)
    requires
        0 <= n <= results.len(),
    ensures
        collected(results, n) is Ok <==> forall|i: int|
            0 <= i < n ==> (#[trigger] results[i]) is Ok,
        collected(results, n) matches Ok(list) ==> list.len() == n && forall|i: int|
            0 <= i < n ==> (results[i] matches Ok(value) && #[trigger] list[i] == value@),
        collected(results, n) matches Err(e) ==> exists|i: int|
            0 <= i < n && (#[trigger] results[i] matches Err(own) && own@ == e) && forall|j: int|
                0 <= j < i ==> (#[trigger] results[j]) is Ok,
    decreases n,
{
    if n > 0 {
        law_results_are_collected(results, n - 1);
        if let Ok(list) = collected(results, n) {
            let before = collected(results, n - 1)->Ok_0;
            assert forall|i: int| 0 <= i < n implies (results[i] matches Ok(value)
                && #[trigger] list[i] == value@) by {
                if i < n - 1 {
                    assert(list[i] == before[i]);
                }
            }
        } else if collected(results, n - 1) is Ok {
            assert(results[n - 1] is Err);
        }
    }
}

} // verus!
