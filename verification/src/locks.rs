//! Locks: ordered lists of human-readable reasons, per environment and per
//! resource, stored in each environment's `locks.yaml`.

use vstd::prelude::*;

use crate::content::{spec_object_get, ContentValue, ContentView};
use crate::ordmap::{spec_assoc_get, StrMap};

verus! {

/// The reasons a lock holds, in order; locked iff non-empty.
pub struct Lock {
    pub reasons: Vec<String>,
}

/// Reasons of a lock, as a view.
pub type LockView = Seq<Seq<char>>;

/// The locks of one environment.
pub struct Locks {
    pub env_lock: Lock,
    pub resource_locks: StrMap<Lock>,
}

/// Spec-level shape of an environment's locks.
#[verifier::ext_equal]
pub struct LocksView {
    pub env_lock: LockView,
    pub resource_locks: Seq<(Seq<char>, LockView)>,
}

impl View for Lock {
    type V = LockView;

    open spec fn view(&self) -> LockView {
        Seq::new(self.reasons@.len(), |i: int| self.reasons@[i]@)
    }
}

impl View for Locks {
    type V = LocksView;

    open spec fn view(&self) -> LocksView {
        LocksView {
            env_lock: self.env_lock@,
            resource_locks: Seq::new(
                self.resource_locks@.len(),
                |i: int| (self.resource_locks@[i].0, self.resource_locks@[i].1@),
            ),
        }
    }
}

/// Whether `r` is among the reasons.
pub open spec fn spec_has_reason(rs: LockView, r: Seq<char>) -> bool {
    exists|i: int| 0 <= i < rs.len() && rs[i] == r
}

/// All reasons equal to `r` removed.
pub open spec fn spec_remove_reason(rs: LockView, r: Seq<char>) -> LockView
    decreases rs.len(),
{
    if rs.len() == 0 {
        rs
    } else if rs[0] == r {
        spec_remove_reason(rs.drop_first(), r)
    } else {
        seq![rs[0]] + spec_remove_reason(rs.drop_first(), r)
    }
}

impl Lock {
    /// A lock with no reasons.
    pub fn new() -> (r: Lock)
        ensures
            r@ == Seq::<Seq<char>>::empty(),
    {
        let r = Lock { reasons: Vec::new() };
        proof {
            assert(r@ =~= Seq::<Seq<char>>::empty());
        }
        r
    }

    /// Whether any reason holds.
    pub fn is_locked(&self) -> (r: bool)
        ensures
            r == (self@.len() > 0),
    {
        !self.reasons.is_empty()
    }

    /// Adds a reason unless an equal one is already present.
    pub fn add_reason(&mut self, reason: &str)
        ensures
            spec_has_reason(old(self)@, reason@) ==> final(self)@ == old(self)@,
            !spec_has_reason(old(self)@, reason@) ==> final(self)@ == old(self)@.push(reason@),
    {
        let reason_string = reason.to_owned();
        let mut i: usize = 0;
        while i < self.reasons.len()
            invariant
                *self == *old(self),
                reason_string@ == reason@,
                i <= self.reasons@.len(),
                forall|j: int| 0 <= j < i ==> self@[j] != reason@,
            decreases self.reasons@.len() - i,
        {
            if self.reasons[i].eq(&reason_string) {
                proof {
                    assert(self@[i as int] == reason@);
                }
                return ;
            }
            i = i + 1;
        }
        proof {
            assert(!spec_has_reason(self@, reason@));
        }
        self.reasons.push(reason_string);
        proof {
            assert(final(self)@ =~= old(self)@.push(reason@));
        }
    }

    /// Removes every reason equal to the given one.
    pub fn remove_reason(&mut self, reason: &str)
        ensures
            final(self)@ == spec_remove_reason(old(self)@, reason@),
    {
        let reason_string = reason.to_owned();
        let ghost rs = old(self)@;
        let mut out: Vec<String> = Vec::new();
        proof {
            assert(rs.skip(0) =~= rs);
        }
        let mut i: usize = 0;
        while i < self.reasons.len()
            invariant
                *self == *old(self),
                reason_string@ == reason@,
                i <= self.reasons@.len(),
                rs == self@,
                rs.len() == self.reasons@.len(),
                forall|j: int| 0 <= j < rs.len() ==> #[trigger] rs[j] == self.reasons@[j]@,
                spec_remove_reason(rs, reason@) == Seq::new(
                    out@.len(),
                    |x: int| out@[x]@,
                ) + spec_remove_reason(rs.skip(i as int), reason@),
            decreases self.reasons@.len() - i,
        {
            proof {
                assert(rs.skip(i as int)[0] == rs[i as int]);
                assert(rs.skip(i as int).drop_first() =~= rs.skip(i + 1));
            }
            let ghost out_before = Seq::new(out@.len(), |x: int| out@[x]@);
            if !self.reasons[i].eq(&reason_string) {
                out.push(self.reasons[i].clone());
                proof {
                    assert(Seq::new(out@.len(), |x: int| out@[x]@) =~= out_before.push(
                        rs[i as int],
                    ));
                    assert(out_before + (seq![rs[i as int]] + spec_remove_reason(
                        rs.skip(i + 1),
                        reason@,
                    )) =~= out_before.push(rs[i as int]) + spec_remove_reason(
                        rs.skip(i + 1),
                        reason@,
                    ));
                }
            }
            i = i + 1;
        }
        proof {
            assert(rs.skip(rs.len() as int) =~= Seq::<Seq<char>>::empty());
        }
        self.reasons = out;
        proof {
            assert(final(self)@ =~= spec_remove_reason(rs, reason@));
        }
    }
}

impl Default for Lock {
    /// A lock with no reasons.
    fn default() -> (r: Lock)
        ensures
            r@ == Seq::<Seq<char>>::empty(),
    {
        Lock::new()
    }
}

impl Locks {
    /// No environment lock and no resource locks.
    pub fn new() -> (r: Locks)
        ensures
            r@.env_lock.len() == 0,
            r@.resource_locks.len() == 0,
    {
        Locks { env_lock: Lock::new(), resource_locks: StrMap::new() }
    }

    /// Whether the named resource is locked.
    pub fn resource_is_locked(&self, resource: &str) -> (r: bool)
        ensures
            r == match spec_assoc_get(self.resource_locks@, resource@) {
                Some(l) => l@.len() > 0,
                None => false,
            },
    {
        match self.resource_locks.get(resource) {
            Some(l) => l.is_locked(),
            None => false,
        }
    }
}

impl Default for Locks {
    /// No environment lock and no resource locks.
    fn default() -> (r: Locks)
        ensures
            r@.env_lock.len() == 0,
            r@.resource_locks.len() == 0,
    {
        Locks::new()
    }
}

/// The reasons list decoded from an array of string leaves; `None` when a
/// non-string element occurs.
pub open spec fn spec_texts_of(items: Seq<ContentView>) -> Option<Seq<Seq<char>>>
    decreases items.len(),
{
    if items.len() == 0 {
        Some(Seq::empty())
    } else {
        match items[0] {
            ContentView::Text(t) => match spec_texts_of(items.drop_first()) {
                Some(r) => Some(seq![t] + r),
                None => None,
            },
            _ => None,
        }
    }
}

/// A lock decoded from content: an object whose `reasons` is an array of
/// strings.
pub open spec fn spec_lock_of(v: ContentView) -> Option<LockView> {
    match v {
        ContentView::Object(fields) => match spec_object_get(fields, "reasons"@) {
            Some(ContentView::Array(items)) => spec_texts_of(items),
            _ => None,
        },
        _ => None,
    }
}

/// Resource locks decoded from an object of locks.
pub open spec fn spec_lock_fields_of(
    fields: Seq<(Seq<char>, ContentView)>,
) -> Option<Seq<(Seq<char>, LockView)>>
    decreases fields.len(),
{
    if fields.len() == 0 {
        Some(Seq::empty())
    } else {
        match spec_lock_of(fields[0].1) {
            Some(l) => match spec_lock_fields_of(fields.drop_first()) {
                Some(r) => Some(seq![(fields[0].0, l)] + r),
                None => None,
            },
            None => None,
        }
    }
}

/// An environment's locks decoded from content: an object with optional
/// `env_lock` and `resource_locks` fields, each defaulting to empty.
pub open spec fn spec_locks_of(v: ContentView) -> Option<LocksView> {
    match v {
        ContentView::Object(fields) => {
            let env_lock = match spec_object_get(fields, "env_lock"@) {
                None => Some(Seq::<Seq<char>>::empty()),
                Some(lv) => spec_lock_of(lv),
            };
            let resource_locks = match spec_object_get(fields, "resource_locks"@) {
                None => Some(Seq::<(Seq<char>, LockView)>::empty()),
                Some(ContentView::Object(fs)) => spec_lock_fields_of(fs),
                Some(_) => None,
            };
            match (env_lock, resource_locks) {
                (Some(e), Some(r)) => Some(LocksView { env_lock: e, resource_locks: r }),
                _ => None,
            }
        },
        _ => None,
    }
}

/// Decodes an array of string leaves.
fn texts_of_array(items: &Vec<ContentValue>) -> (r: Option<Vec<String>>)
    ensures
        match r {
            Some(out) => spec_texts_of(items.deep_view()) == Some(
                Seq::new(out@.len(), |x: int| out@[x]@),
            ),
            None => spec_texts_of(items.deep_view()) is None,
        },
{
    let ghost iv = items.deep_view();
    let mut out: Vec<String> = Vec::new();
    proof {
        assert(iv.skip(0) =~= iv);
        if spec_texts_of(iv) is Some {
            assert(Seq::new(out@.len(), |x: int| out@[x]@) + spec_texts_of(iv).unwrap()
                =~= spec_texts_of(iv).unwrap());
        }
    }
    let mut i: usize = 0;
    while i < items.len()
        invariant
            i <= items@.len(),
            iv == items.deep_view(),
            iv.len() == items@.len(),
            forall|j: int| 0 <= j < iv.len() ==> #[trigger] iv[j] == items@[j].deep_view(),
            out@.len() == i,
            spec_texts_of(iv.skip(i as int)) is Some ==> spec_texts_of(iv) is Some,
            match spec_texts_of(iv) {
                Some(full) => match spec_texts_of(iv.skip(i as int)) {
                    Some(rest) => full == Seq::new(out@.len(), |x: int| out@[x]@) + rest,
                    None => false,
                },
                None => true,
            },
        decreases items@.len() - i,
    {
        proof {
            assert(iv.skip(i as int)[0] == iv[i as int]);
            assert(iv.skip(i as int).drop_first() =~= iv.skip(i + 1));
        }
        let ghost out_before = Seq::new(out@.len(), |x: int| out@[x]@);
        match &items[i] {
            ContentValue::Text(t) => {
                out.push(t.clone());
                proof {
                    assert(Seq::new(out@.len(), |x: int| out@[x]@) =~= out_before.push(
                        (iv[i as int])->Text_0,
                    ));
                    if spec_texts_of(iv.skip(i + 1)) is Some {
                        assert(out_before + (seq![(iv[i as int])->Text_0] + spec_texts_of(
                            iv.skip(i + 1),
                        ).unwrap()) =~= out_before.push((iv[i as int])->Text_0)
                            + spec_texts_of(iv.skip(i + 1)).unwrap());
                    }
                }
            },
            _ => {
                proof {
                    assert(spec_texts_of(iv.skip(i as int)) is None);
                }
                return None;
            },
        }
        i = i + 1;
    }
    proof {
        assert(iv.skip(iv.len() as int) =~= Seq::<ContentView>::empty());
        if spec_texts_of(iv) is Some {
            assert(spec_texts_of(iv).unwrap() =~= Seq::new(out@.len(), |x: int| out@[x]@));
        }
    }
    Some(out)
}

/// Decodes one lock.
fn lock_of_content(v: &ContentValue) -> (r: Option<Lock>)
    ensures
        match r {
            Some(l) => spec_lock_of(v.deep_view()) == Some(l@),
            None => spec_lock_of(v.deep_view()) is None,
        },
{
    match v.get("reasons") {
        Some(reasons) => match reasons {
            ContentValue::Array(items) => match {
                proof {
                    assert(items.deep_view() =~= (reasons.deep_view())->Array_0);
                }
                texts_of_array(items)
            } {
                Some(texts) => {
                    let l = Lock { reasons: texts };
                    proof {
                        assert(l@ =~= Seq::new(l.reasons@.len(), |x: int| l.reasons@[x]@));
                    }
                    Some(l)
                },
                None => None,
            },
            _ => None,
        },
        None => None,
    }
}

/// Decodes an environment's locks from the content of its `locks.yaml`.
pub fn locks_from_content(v: &ContentValue) -> (r: Option<Locks>)
    ensures
        match r {
            Some(l) => spec_locks_of(v.deep_view()) == Some(l@),
            None => spec_locks_of(v.deep_view()) is None,
        },
{
    let fields = match v {
        ContentValue::Object(_) => (),
        _ => {
            return None;
        },
    };
    let env_lock = match v.get("env_lock") {
        None => Lock::new(),
        Some(lv) => match lock_of_content(lv) {
            Some(l) => l,
            None => {
                return None;
            },
        },
    };
    let resource_locks = match v.get("resource_locks") {
        None => StrMap::new(),
        Some(rv) => match rv {
            ContentValue::Object(fs) => {
                let ghost fsv = rv.deep_view()->Object_0;
                proof {
                    assert(fsv.skip(0) =~= fsv);
                }
                let mut out: StrMap<Lock> = StrMap::new();
                proof {
                    if spec_lock_fields_of(fsv) is Some {
                        assert(Seq::new(out@.len(), |x: int| (out@[x].0, out@[x].1@))
                            + spec_lock_fields_of(fsv).unwrap() =~= spec_lock_fields_of(
                            fsv,
                        ).unwrap());
                    }
                }
                let mut i: usize = 0;
                while i < fs.len()
                    invariant
                        i <= fs@.len(),
                        fsv.len() == fs@.len(),
                        forall|j: int|
                            0 <= j < fsv.len() ==> #[trigger] fsv[j] == (
                                fs@[j].0@,
                                fs@[j].1.deep_view(),
                            ),
                        out@.len() == i,
                        rv.deep_view() matches ContentView::Object(o) && o == fsv,
                        v.deep_view() matches ContentView::Object(vo) && spec_object_get(
                            vo,
                            "resource_locks"@,
                        ) == Some(rv.deep_view()),
                        spec_lock_fields_of(fsv.skip(i as int)) is Some ==> spec_lock_fields_of(
                            fsv,
                        ) is Some,
                        match spec_lock_fields_of(fsv) {
                            Some(full) => match spec_lock_fields_of(fsv.skip(i as int)) {
                                Some(rest) => full == Seq::new(
                                    out@.len(),
                                    |x: int| (out@[x].0, out@[x].1@),
                                ) + rest,
                                None => false,
                            },
                            None => true,
                        },
                    decreases fs@.len() - i,
                {
                    proof {
                        assert(fsv.skip(i as int)[0] == fsv[i as int]);
                        assert(fsv.skip(i as int).drop_first() =~= fsv.skip(i + 1));
                    }
                    let ghost out_before = Seq::new(out@.len(), |x: int| (out@[x].0, out@[x].1@));
                    match lock_of_content(&fs[i].1) {
                        Some(l) => {
                            let ghost lv = l@;
                            out.entries.push((fs[i].0.clone(), l));
                            proof {
                                assert(Seq::new(out@.len(), |x: int| (out@[x].0, out@[x].1@))
                                    =~= out_before.push((fsv[i as int].0, lv)));
                                if spec_lock_fields_of(fsv.skip(i + 1)) is Some {
                                    assert(out_before + (seq![(fsv[i as int].0, lv)]
                                        + spec_lock_fields_of(fsv.skip(i + 1)).unwrap())
                                        =~= out_before.push((fsv[i as int].0, lv))
                                        + spec_lock_fields_of(fsv.skip(i + 1)).unwrap());
                                }
                            }
                            i = i + 1;
                        },
                        None => {
                            proof {
                                assert(spec_lock_fields_of(fsv.skip(i as int)) is None);
                                assert(spec_lock_fields_of(fsv) is None);
                            }
                            return None;
                        },
                    }
                }
                proof {
                    assert(fsv.skip(fsv.len() as int) =~= Seq::<(Seq<char>, ContentView)>::empty());
                    if spec_lock_fields_of(fsv) is Some {
                        assert(spec_lock_fields_of(fsv).unwrap() =~= Seq::new(
                            out@.len(),
                            |x: int| (out@[x].0, out@[x].1@),
                        ));
                    }
                }
                out
            },
            _ => {
                return None;
            },
        },
    };
    let l = Locks { env_lock, resource_locks };
    proof {
        assert(l@.resource_locks =~= Seq::new(
            l.resource_locks@.len(),
            |x: int| (l.resource_locks@[x].0, l.resource_locks@[x].1@),
        ));
    }
    Some(l)
}

/// One lock encoded as content.
pub open spec fn spec_lock_content(l: LockView) -> ContentView {
    ContentView::Object(
        seq![
            (
                "reasons"@,
                ContentView::Array(Seq::new(l.len(), |i: int| ContentView::Text(l[i]))),
            ),
        ],
    )
}

/// An environment's locks encoded as the content of its `locks.yaml`.
pub open spec fn spec_locks_content(l: LocksView) -> ContentView {
    ContentView::Object(
        seq![
            ("env_lock"@, spec_lock_content(l.env_lock)),
            (
                "resource_locks"@,
                ContentView::Object(
                    Seq::new(
                        l.resource_locks.len(),
                        |i: int| (l.resource_locks[i].0, spec_lock_content(l.resource_locks[i].1)),
                    ),
                ),
            ),
        ],
    )
}

/// Encodes one lock.
fn lock_to_content(l: &Lock) -> (r: ContentValue)
    ensures
        r.deep_view() == spec_lock_content(l@),
{
    let mut items: Vec<ContentValue> = Vec::new();
    let mut i: usize = 0;
    while i < l.reasons.len()
        invariant
            i <= l.reasons@.len(),
            items@.len() == i,
            forall|j: int|
                0 <= j < i ==> (#[trigger] items@[j]).deep_view() == ContentView::Text(
                    l.reasons@[j]@,
                ),
        decreases l.reasons@.len() - i,
    {
        items.push(ContentValue::Text(l.reasons[i].clone()));
        i = i + 1;
    }
    let arr = ContentValue::Array(items);
    let mut fields: Vec<(String, ContentValue)> = Vec::new();
    fields.push(("reasons".to_owned(), arr));
    let r = ContentValue::Object(fields);
    proof {
        reveal_with_fuel(crate::content::spec_content_view, 3);
        let dv = r.deep_view();
        let spv = spec_lock_content(l@);
        assert(dv->Object_0.len() == 1);
        assert(dv->Object_0[0].0 == "reasons"@);
        assert((dv->Object_0[0].1)->Array_0 =~= (spv->Object_0[0].1)->Array_0);
        assert(dv->Object_0[0].1 == spv->Object_0[0].1);
        assert(dv->Object_0[0] == spv->Object_0[0]);
        assert(dv->Object_0 =~= spv->Object_0);
    }
    r
}

impl Locks {
    /// Encodes the locks as the content of `locks.yaml`.
    pub fn to_content(&self) -> (r: ContentValue)
        ensures
            r.deep_view() == spec_locks_content(self@),
    {
        let env_lock = lock_to_content(&self.env_lock);
        let mut rfields: Vec<(String, ContentValue)> = Vec::new();
        let mut i: usize = 0;
        while i < self.resource_locks.entries.len()
            invariant
                i <= self.resource_locks.entries@.len(),
                rfields@.len() == i,
                forall|j: int|
                    0 <= j < i ==> (#[trigger] rfields@[j]).0@
                        == self.resource_locks.entries@[j].0@ && rfields@[j].1.deep_view()
                        == spec_lock_content(self.resource_locks.entries@[j].1@),
            decreases self.resource_locks.entries@.len() - i,
        {
            let key = self.resource_locks.entries[i].0.clone();
            let val = lock_to_content(&self.resource_locks.entries[i].1);
            rfields.push((key, val));
            i = i + 1;
        }
        let rl = ContentValue::Object(rfields);
        let mut fields: Vec<(String, ContentValue)> = Vec::new();
        fields.push(("env_lock".to_owned(), env_lock));
        fields.push(("resource_locks".to_owned(), rl));
        let r = ContentValue::Object(fields);
        proof {
            reveal_with_fuel(crate::content::spec_content_view, 3);
            let dv = r.deep_view();
            let spv = spec_locks_content(self@);
            assert(dv->Object_0.len() == 2);
            assert(dv->Object_0[0].0 == "env_lock"@);
            assert(dv->Object_0[0].1 == spv->Object_0[0].1);
            assert(dv->Object_0[0] == spv->Object_0[0]);
            assert(dv->Object_0[1].0 == "resource_locks"@);
            assert((dv->Object_0[1].1)->Object_0 =~= (spv->Object_0[1].1)->Object_0);
            assert(dv->Object_0[1].1 == spv->Object_0[1].1);
            assert(dv->Object_0[1] == spv->Object_0[1]);
            assert(dv->Object_0 =~= spv->Object_0);
        }
        r
    }
}

} // verus!
