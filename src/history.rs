use vstd::prelude::*;

use crate::error::ContextError;

verus! {

/// One recorded write: the context it took effect at, and the value bound
/// from then on (`None` marks a retraction).
pub type Entry = (u64, Option<u64>);

/// The contexts of `s` strictly increase from first entry to last.
pub open spec fn increasing(s: Seq<Entry>) -> bool {
    forall|i: int, j: int| 0 <= i < j < s.len() ==> #[trigger] s[i].0 < #[trigger] s[j].0
}

/// A history takes a write at `context` when it is empty or its latest
/// context lies strictly before `context`.
pub open spec fn accepts(s: Seq<Entry>, context: u64) -> bool {
    s.len() == 0 || s.last().0 < context
}

/// The entry in effect at `context`: the latest entry whose context is not
/// after `context`, given as its binding; `None` when there is none.
pub open spec fn floor_of(s: Seq<Entry>, context: u64) -> Option<Option<u64>>
    decreases s.len(),
{
    if s.len() == 0 {
        None
    } else if s.last().0 <= context {
        Some(s.last().1)
    } else {
        floor_of(s.drop_last(), context)
    }
}

/// The value live at `context`: absent when nothing was recorded by then or
/// when the entry in effect is a retraction.
pub open spec fn value_at(s: Seq<Entry>, context: u64) -> Option<u64> {
    match floor_of(s, context) {
        Some(b) => b,
        None => None,
    }
}

/// The binding of the latest entry, `None` for an empty history.
pub open spec fn latest(s: Seq<Entry>) -> Option<u64> {
    if s.len() == 0 {
        None
    } else {
        s.last().1
    }
}

/// With `k` the number of entries whose context is not after `context`, the
/// entry in effect is the `k`-th one (none when `k` is zero).
proof fn lemma_floor_split(s: Seq<Entry>, context: u64, k: int)
    requires
        0 <= k <= s.len(),
        forall|i: int| 0 <= i < k ==> #[trigger] s[i].0 <= context,
        forall|i: int| k <= i < s.len() ==> #[trigger] s[i].0 > context,
    ensures
        floor_of(s, context) == (if k == 0 {
            None
        } else {
            Some(s[k - 1].1)
        }),
    decreases s.len(),
{
    if s.len() > 0 && k < s.len() {
        assert(s.last().0 > context);
        let t = s.drop_last();
        assert forall|i: int| 0 <= i < k implies #[trigger] t[i].0 <= context by {
            assert(t[i] == s[i]);
        }
        assert forall|i: int| k <= i < t.len() implies #[trigger] t[i].0 > context by {
            assert(t[i] == s[i]);
        }
        lemma_floor_split(t, context, k);
    }
}

/// A floor lookup on an increasing history finds the entry with the greatest
/// context not after `context`: nothing when the history is empty or starts
/// after `context`; otherwise the binding of entry `i` whenever entry `i` is
/// at or before `context` and the next one, if any, is after it. The value
/// there is absent exactly when that binding is a retraction.
pub proof fn lemma_floor_correct(s: Seq<Entry>, context: u64)
    requires
        increasing(s),
    ensures
        (s.len() == 0 || context < s[0].0) ==> floor_of(s, context) is None && value_at(
            s,
            context,
        ) is None,
        forall|i: int|
            0 <= i < s.len() && #[trigger] s[i].0 <= context && (i + 1 == s.len() || context < s[i
                + 1].0) ==> floor_of(s, context) == Some(s[i].1) && value_at(s, context) == s[i].1,
{
    if s.len() == 0 || context < s[0].0 {
        assert forall|j: int| 0 <= j < s.len() implies #[trigger] s[j].0 > context by {
            if j > 0 {
                assert(s[0].0 < s[j].0);
            }
        }
        lemma_floor_split(s, context, 0);
    }
    assert forall|i: int|
        0 <= i < s.len() && #[trigger] s[i].0 <= context && (i + 1 == s.len() || context < s[i
            + 1].0) implies floor_of(s, context) == Some(s[i].1) && value_at(s, context)
        == s[i].1 by {
        assert forall|j: int| 0 <= j < i + 1 implies #[trigger] s[j].0 <= context by {
            if j < i {
                assert(s[j].0 < s[i].0);
            }
        }
        assert forall|j: int| i + 1 <= j < s.len() implies #[trigger] s[j].0 > context by {
            if j > i + 1 {
                assert(s[i + 1].0 < s[j].0);
            }
        }
        lemma_floor_split(s, context, i + 1);
    }
}

/// One key's timeline: entries in strictly increasing context order, only
/// ever appended to.
pub struct Registry {
    entries: Vec<Entry>,
}

impl View for Registry {
    type V = Seq<Entry>;

    closed spec fn view(&self) -> Seq<Entry> {
        self.entries@
    }
}

impl Registry {
    /// Every history of this type has strictly increasing contexts.
    pub open spec fn wf(&self) -> bool {
        increasing(self@)
    }

    /// An empty history.
    pub fn new() -> (r: Registry)
        ensures
            r.wf(),
            r@ == Seq::<Entry>::empty(),
    {
        Registry { entries: Vec::new() }
    }

    /// The entry in effect at `context`: `None` when nothing was recorded at
    /// or before it, `Some(None)` when the entry in effect is a retraction,
    /// `Some(Some(v))` when `v` is live there. Binary search over the entries.
    pub fn floor(&self, context: u64) -> (r: Option<Option<u64>>)
        requires
            self.wf(),
        ensures
            r == floor_of(self@, context),
    {
        let n: usize = self.entries.len();
        let mut lo: usize = 0;
        let mut hi: usize = n;
        while lo < hi
            invariant
                0 <= lo <= hi <= n,
                n == self.entries@.len(),
                increasing(self.entries@),
                forall|i: int| 0 <= i < lo ==> #[trigger] self.entries@[i].0 <= context,
                forall|i: int| hi <= i < n ==> #[trigger] self.entries@[i].0 > context,
            decreases hi - lo,
        {
            let mid: usize = lo + (hi - lo) / 2;
            if self.entries[mid].0 <= context {
                assert forall|i: int| 0 <= i < mid + 1 implies #[trigger] self.entries@[i].0
                    <= context by {
                    if i < mid {
                        assert(self.entries@[i].0 < self.entries@[mid as int].0);
                    }
                }
                lo = mid + 1;
            } else {
                assert forall|i: int| mid <= i < n implies #[trigger] self.entries@[i].0
                    > context by {
                    if i > mid {
                        assert(self.entries@[mid as int].0 < self.entries@[i].0);
                    }
                }
                hi = mid;
            }
        }
        proof {
            lemma_floor_split(self.entries@, context, lo as int);
        }
        if lo == 0 {
            None
        } else {
            Some(self.entries[lo - 1].1)
        }
    }

    /// The value live at `context`, absent both when nothing was recorded by
    /// then and when the entry in effect is a retraction.
    pub fn get(&self, context: u64) -> (r: Option<u64>)
        requires
            self.wf(),
        ensures
            r == value_at(self@, context),
    {
        match self.floor(context) {
            Some(b) => b,
            None => None,
        }
    }

    /// The binding of the latest entry; `None` when empty or retracted.
    pub fn latest(&self) -> (r: Option<u64>)
        ensures
            r == latest(self@),
    {
        let n: usize = self.entries.len();
        if n == 0 {
            None
        } else {
            self.entries[n - 1].1
        }
    }

    /// Whether a write at `context` would be taken.
    pub fn accepts(&self, context: u64) -> (r: bool)
        ensures
            r == accepts(self@, context),
    {
        let n: usize = self.entries.len();
        n == 0 || self.entries[n - 1].0 < context
    }

    /// Appends `(context, value)`, where `value` is `None` for a retraction.
    /// Refused with `NonMonotonicContext`, and nothing changed, when the
    /// history is non-empty and `context` is not after its latest context.
    pub fn update(&mut self, context: u64, value: Option<u64>) -> (r: Result<(), ContextError>)
        requires
            old(self).wf(),
        ensures
            final(self).wf(),
            r is Ok <==> accepts(old(self)@, context),
            r is Ok ==> final(self)@ == old(self)@.push((context, value)),
            r is Err ==> r == Err::<(), ContextError>(ContextError::NonMonotonicContext)
                && final(self)@ == old(self)@,
    {
        if !self.accepts(context) {
            return Err(ContextError::NonMonotonicContext);
        }
        self.entries.push((context, value));
        assert(increasing(self.entries@)) by {
            assert forall|i: int, j: int|
                0 <= i < j < self.entries@.len() implies #[trigger] self.entries@[i].0
                < #[trigger] self.entries@[j].0 by {
                if j == self.entries@.len() - 1 && i < j - 1 {
                    assert(old(self).entries@[i].0 < old(self).entries@[j - 1].0);
                }
            }
        }
        Ok(())
    }
}

} // verus!
