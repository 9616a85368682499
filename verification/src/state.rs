//! Per-transition scheduling state, persisted in the versions repository
//! itself as `transition_state.yaml` at the root of the tree.

use vstd::prelude::*;

use crate::content::{spec_object_get, ContentValue, ContentView};
use crate::id::Id;
use crate::ordmap::{spec_assoc_get, spec_assoc_remove, spec_assoc_set, StrMap};
use crate::tree::{
    lemma_lookup_insert, lemma_lookup_remove, spec_insert, spec_lookup, spec_remove, NodeView,
    Tree, TreeNode, TreeView,
};

verus! {

/// The state of one transition: the next time it may run, if scheduled.
#[derive(Clone, Copy, PartialEq, Eq, Structural, Debug)]
pub struct TransitionState {
    pub scheduled: Option<i64>,
}

impl TransitionState {
    /// A state carrying nothing.
    pub fn new() -> (r: TransitionState)
        ensures
            r.scheduled is None,
    {
        TransitionState { scheduled: None }
    }

    /// Whether the state carries nothing worth persisting.
    pub fn is_empty(&self) -> (r: bool)
        ensures
            r == (self.scheduled is None),
    {
        self.scheduled.is_none()
    }
}

impl Default for TransitionState {
    /// A state carrying nothing.
    fn default() -> (r: TransitionState)
        ensures
            r.scheduled is None,
    {
        TransitionState::new()
    }
}

/// The spec-level shape of the persisted map: name to scheduled time.
pub type StatesView = Seq<(Seq<char>, Option<int>)>;

/// The states of all transitions, keyed by transition name.
pub struct TransitionStates {
    pub map: StrMap<TransitionState>,
}

impl View for TransitionStates {
    type V = StatesView;

    open spec fn view(&self) -> StatesView {
        Seq::new(
            self.map@.len(),
            |i: int|
                (
                    self.map@[i].0,
                    match self.map@[i].1.scheduled {
                        Some(n) => Some(n as int),
                        None => None,
                    },
                ),
        )
    }
}

/// The name of the file the states live in.
pub open spec fn spec_states_file() -> Seq<char> {
    "transition_state.yaml"@
}

/// One state decoded from content: an object whose optional `scheduled`
/// field is an integer timestamp or null.
pub open spec fn spec_state_of(v: ContentView) -> Option<Option<int>> {
    match v {
        ContentView::Object(fields) => match spec_object_get(fields, "scheduled"@) {
            None => Some(None),
            Some(ContentView::Null) => Some(None),
            Some(ContentView::Int(n)) => Some(Some(n)),
            Some(_) => None,
        },
        _ => None,
    }
}

/// All states decoded from the fields of the file's object.
pub open spec fn spec_states_fields_of(
    fields: Seq<(Seq<char>, ContentView)>,
) -> Option<StatesView>
    decreases fields.len(),
{
    if fields.len() == 0 {
        Some(Seq::empty())
    } else {
        match spec_state_of(fields[0].1) {
            Some(s) => match spec_states_fields_of(fields.drop_first()) {
                Some(r) => Some(seq![(fields[0].0, s)] + r),
                None => None,
            },
            None => None,
        }
    }
}

/// The states decoded from the file content.
pub open spec fn spec_states_of(v: ContentView) -> Option<StatesView> {
    match v {
        ContentView::Object(fields) => spec_states_fields_of(fields),
        _ => None,
    }
}

/// One state encoded as content.
pub open spec fn spec_state_content(s: Option<int>) -> ContentView {
    ContentView::Object(
        seq![
            (
                "scheduled"@,
                match s {
                    Some(n) => ContentView::Int(n),
                    None => ContentView::Null,
                },
            ),
        ],
    )
}

/// The states encoded as the file content.
pub open spec fn spec_states_content_fields(sv: StatesView) -> Seq<(Seq<char>, ContentView)>
    decreases sv.len(),
{
    if sv.len() == 0 {
        Seq::empty()
    } else {
        seq![(sv[0].0, spec_state_content(sv[0].1))] + spec_states_content_fields(sv.drop_first())
    }
}

/// The content of the file holding the given states.
pub open spec fn spec_states_content(sv: StatesView) -> ContentView {
    ContentView::Object(spec_states_content_fields(sv))
}

/// The states read from the root of a tree: an absent file is an empty map;
/// a malformed or content-less file decodes to nothing.
pub open spec fn spec_states_load(t: TreeView) -> Option<StatesView> {
    match spec_lookup(t, spec_states_file()) {
        None => Some(Seq::empty()),
        Some(NodeView::Blob { id: _, content: Some(c) }) => spec_states_of(c),
        Some(_) => None,
    }
}

/// The tree after saving the given states at its root: an empty map removes
/// the file, any other map binds it to a fresh blob holding the encoding.
pub open spec fn spec_states_save(t: TreeView, sv: StatesView) -> TreeView {
    if sv.len() == 0 {
        spec_remove(t, spec_states_file())
    } else {
        spec_insert(
            t,
            spec_states_file(),
            NodeView::Blob {
                id: Seq::new(20, |i: int| 0u8),
                content: Some(spec_states_content(sv)),
            },
        )
    }
}

/// Decoding an encoded state gives the state back.
proof fn lemma_state_roundtrip(s: Option<int>)
    ensures
        spec_state_of(spec_state_content(s)) == Some(s),
{
    let fields = (spec_state_content(s))->Object_0;
    assert(fields[0].0 == "scheduled"@);
}

/// Decoding encoded states gives the states back.
proof fn lemma_states_fields_roundtrip(sv: StatesView)
    ensures
        spec_states_fields_of(spec_states_content_fields(sv)) == Some(sv),
    decreases sv.len(),
{
    if sv.len() == 0 {
    } else {
        let enc = spec_states_content_fields(sv);
        assert(enc[0] == (sv[0].0, spec_state_content(sv[0].1)));
        lemma_state_roundtrip(sv[0].1);
        lemma_states_fields_roundtrip(sv.drop_first());
        assert(enc.drop_first() =~= spec_states_content_fields(sv.drop_first()));
        assert(seq![(sv[0].0, sv[0].1)] + sv.drop_first() =~= sv);
    }
}

/// Saving states and loading from the resulting tree yields the map that
/// was saved; trees with unique entry names only.
pub proof fn lemma_states_save_load_roundtrip(t: TreeView, sv: StatesView)
    requires
        crate::ordmap::spec_unique_keys(t),
    ensures
        spec_states_load(spec_states_save(t, sv)) == Some(sv),
{
    if sv.len() == 0 {
        lemma_lookup_remove(t, spec_states_file());
    } else {
        lemma_lookup_insert(
            t,
            spec_states_file(),
            NodeView::Blob {
                id: Seq::new(20, |i: int| 0u8),
                content: Some(spec_states_content(sv)),
            },
        );
        lemma_states_fields_roundtrip(sv);
    }
}

impl TransitionStates {
    /// An empty map of states.
    pub fn new() -> (r: TransitionStates)
        ensures
            r@ == Seq::<(Seq<char>, Option<int>)>::empty(),
    {
        let r = TransitionStates { map: StrMap::new() };
        proof {
            assert(r@ =~= Seq::<(Seq<char>, Option<int>)>::empty());
        }
        r
    }

    /// The state recorded for `name`, or an empty state.
    pub fn get_state(&self, name: &str) -> (r: TransitionState)
        ensures
            match spec_assoc_get(self.map@, name@) {
                Some(s) => r == s,
                None => r.scheduled is None,
            },
    {
        match self.map.get(name) {
            Some(s) => *s,
            None => TransitionState::new(),
        }
    }

    /// Records the state for `name`; an empty state removes the entry.
    pub fn insert(&mut self, name: &str, state: TransitionState)
        ensures
            state.scheduled is None ==> final(self).map@ == spec_assoc_remove(
                old(self).map@,
                name@,
            ),
            state.scheduled is Some ==> final(self).map@ == spec_assoc_set(
                old(self).map@,
                name@,
                state,
            ),
    {
        if state.is_empty() {
            self.map.remove(name);
        } else {
            self.map.set(name.to_owned(), state);
        }
    }

    /// Reads the states from the root of a tree.
    pub fn load(t: &Tree) -> (r: Option<TransitionStates>)
        ensures
            match r {
                Some(states) => spec_states_load(t@) == Some(states@),
                None => spec_states_load(t@) is None,
            },
    {
        let node = match t.lookup("transition_state.yaml") {
            None => {
                let r = TransitionStates::new();
                proof {
                    assert(r@ =~= Seq::<(Seq<char>, Option<int>)>::empty());
                }
                return Some(r);
            },
            Some(n) => n,
        };
        let content = match node {
            TreeNode::Blob { id: _, content: Some(c) } => c,
            _ => {
                return None;
            },
        };
        let fields = match content {
            ContentValue::Object(fields) => fields,
            _ => {
                return None;
            },
        };
        let ghost fsv = (content.deep_view())->Object_0;
        proof {
            assert(fsv.skip(0) =~= fsv);
        }
        let mut out: StrMap<TransitionState> = StrMap::new();
        proof {
            if spec_states_fields_of(fsv) is Some {
                assert(Seq::new(
                    out@.len(),
                    |x: int|
                        (
                            out@[x].0,
                            match out@[x].1.scheduled {
                                Some(n) => Some(n as int),
                                None => None,
                            },
                        ),
                ) + spec_states_fields_of(fsv).unwrap() =~= spec_states_fields_of(fsv).unwrap());
            }
        }
        let mut i: usize = 0;
        while i < fields.len()
            invariant
                i <= fields@.len(),
                spec_states_load(t@) == spec_states_fields_of(fsv),
                fsv.len() == fields@.len(),
                forall|j: int|
                    0 <= j < fsv.len() ==> #[trigger] fsv[j] == (
                        fields@[j].0@,
                        fields@[j].1.deep_view(),
                    ),
                out@.len() == i,
                spec_states_fields_of(fsv.skip(i as int)) is Some ==> spec_states_fields_of(
                    fsv,
                ) is Some,
                match spec_states_fields_of(fsv) {
                    Some(full) => match spec_states_fields_of(fsv.skip(i as int)) {
                        Some(rest) => full == Seq::new(
                            out@.len(),
                            |x: int|
                                (
                                    out@[x].0,
                                    match out@[x].1.scheduled {
                                        Some(n) => Some(n as int),
                                        None => None,
                                    },
                                ),
                        ) + rest,
                        None => false,
                    },
                    None => true,
                },
            decreases fields@.len() - i,
        {
            proof {
                assert(fsv.skip(i as int)[0] == fsv[i as int]);
                assert(fsv.skip(i as int).drop_first() =~= fsv.skip(i + 1));
            }
            let ghost out_before = Seq::new(
                out@.len(),
                |x: int|
                    (
                        out@[x].0,
                        match out@[x].1.scheduled {
                            Some(n) => Some(n as int),
                            None => None,
                        },
                    ),
            );
            let entry = &fields[i];
            let scheduled: Option<i64> = match entry.1.get("scheduled") {
                None => match &entry.1 {
                    ContentValue::Object(_) => None,
                    _ => {
                        proof {
                            assert(spec_state_of(fsv[i as int].1) is None);
                            assert(spec_states_fields_of(fsv.skip(i as int)) is None);
                        }
                        return None;
                    },
                },
                Some(ContentValue::Null) => None,
                Some(ContentValue::Int(n)) => Some(*n),
                Some(_) => {
                    proof {
                        assert(spec_state_of(fsv[i as int].1) is None);
                        assert(spec_states_fields_of(fsv.skip(i as int)) is None);
                    }
                    return None;
                },
            };
            let ghost sdec = match scheduled {
                Some(n) => Some(n as int),
                None => None,
            };
            proof {
                assert(spec_state_of(fsv[i as int].1) == Some(sdec));
            }
            out.entries.push((entry.0.clone(), TransitionState { scheduled }));
            proof {
                assert(Seq::new(
                    out@.len(),
                    |x: int|
                        (
                            out@[x].0,
                            match out@[x].1.scheduled {
                                Some(n) => Some(n as int),
                                None => None,
                            },
                        ),
                ) =~= out_before.push((fsv[i as int].0, sdec)));
                if spec_states_fields_of(fsv.skip(i + 1)) is Some {
                    assert(out_before + (seq![(fsv[i as int].0, sdec)] + spec_states_fields_of(
                        fsv.skip(i + 1),
                    ).unwrap()) =~= out_before.push((fsv[i as int].0, sdec))
                        + spec_states_fields_of(fsv.skip(i + 1)).unwrap());
                }
            }
            i = i + 1;
        }
        proof {
            assert(fsv.skip(fsv.len() as int) =~= Seq::<(Seq<char>, ContentView)>::empty());
        }
        let states = TransitionStates { map: out };
        proof {
            if spec_states_fields_of(fsv) is Some {
                assert(states@ =~= spec_states_fields_of(fsv).unwrap());
            }
        }
        Some(states)
    }

    /// Writes the states into the root of a tree: an empty map removes the
    /// file, any other map binds the file to a blob holding the encoding.
    pub fn save(&self, t: &mut Tree)
        ensures
            final(t)@ == spec_states_save(old(t)@, self@),
    {
        if self.map.is_empty() {
            t.remove("transition_state.yaml");
            proof {
                assert(self@ =~= Seq::<(Seq<char>, Option<int>)>::empty());
            }
        } else {
            let content = self.to_content();
            let node = TreeNode::Blob { id: Id::zero(), content: Some(content) };
            t.insert("transition_state.yaml".to_owned(), node);
        }
    }

    /// Encodes the states as file content.
    pub fn to_content(&self) -> (r: ContentValue)
        ensures
            r.deep_view() == spec_states_content(self@),
    {
        let ghost sv = self@;
        let mut fields: Vec<(String, ContentValue)> = Vec::new();
        proof {
            assert(sv.skip(0) =~= sv);
            assert(Seq::new(fields@.len(), |x: int| (fields@[x].0@, fields@[x].1.deep_view()))
                + spec_states_content_fields(sv) =~= spec_states_content_fields(sv));
        }
        let mut i: usize = 0;
        while i < self.map.entries.len()
            invariant
                i <= self.map.entries@.len(),
                sv == self@,
                sv.len() == self.map.entries@.len(),
                forall|j: int|
                    0 <= j < sv.len() ==> #[trigger] sv[j] == (
                        self.map.entries@[j].0@,
                        match self.map.entries@[j].1.scheduled {
                            Some(n) => Some(n as int),
                            None => None,
                        },
                    ),
                fields@.len() == i,
                spec_states_content_fields(sv) == Seq::new(
                    fields@.len(),
                    |x: int| (fields@[x].0@, fields@[x].1.deep_view()),
                ) + spec_states_content_fields(sv.skip(i as int)),
            decreases self.map.entries@.len() - i,
        {
            proof {
                assert(sv.skip(i as int)[0] == sv[i as int]);
                assert(sv.skip(i as int).drop_first() =~= sv.skip(i + 1));
            }
            let ghost fields_before = Seq::new(
                fields@.len(),
                |x: int| (fields@[x].0@, fields@[x].1.deep_view()),
            );
            let name = self.map.entries[i].0.clone();
            let scheduled_value = match self.map.entries[i].1.scheduled {
                Some(n) => ContentValue::Int(n),
                None => ContentValue::Null,
            };
            let mut state_fields: Vec<(String, ContentValue)> = Vec::new();
            state_fields.push(("scheduled".to_owned(), scheduled_value));
            let state_obj = ContentValue::Object(state_fields);
            proof {
                reveal_with_fuel(crate::content::spec_content_view, 2);
                let dv = state_obj.deep_view();
                let spv = spec_state_content(sv[i as int].1);
                assert(dv->Object_0.len() == 1);
                assert(dv->Object_0[0].0 == "scheduled"@);
                assert(spv->Object_0[0].0 == "scheduled"@);
                match self.map.entries@[i as int].1.scheduled {
                    Some(n) => {
                        assert(scheduled_value == ContentValue::Int(n));
                        assert(sv[i as int] == (
                            self.map.entries@[i as int].0@,
                            Some(n as int),
                        ));
                    },
                    None => {
                        assert(scheduled_value == ContentValue::Null);
                        assert(sv[i as int] == (
                            self.map.entries@[i as int].0@,
                            None::<int>,
                        ));
                    },
                }
                assert(dv->Object_0[0].1 == spv->Object_0[0].1);
                assert(dv->Object_0[0] == spv->Object_0[0]);
                assert(dv->Object_0 =~= spv->Object_0);
                assert(state_obj.deep_view() == spec_state_content(sv[i as int].1));
            }
            fields.push((name, state_obj));
            proof {
                assert(Seq::new(
                    fields@.len(),
                    |x: int| (fields@[x].0@, fields@[x].1.deep_view()),
                ) =~= fields_before.push((sv[i as int].0, spec_state_content(sv[i as int].1))));
                assert(fields_before + (seq![
                    (sv[i as int].0, spec_state_content(sv[i as int].1)),
                ] + spec_states_content_fields(sv.skip(i + 1))) =~= fields_before.push(
                    (sv[i as int].0, spec_state_content(sv[i as int].1)),
                ) + spec_states_content_fields(sv.skip(i + 1)));
            }
            i = i + 1;
        }
        proof {
            assert(sv.skip(sv.len() as int) =~= Seq::<(Seq<char>, Option<int>)>::empty());
        }
        let r = ContentValue::Object(fields);
        proof {
            assert((r.deep_view())->Object_0 =~= Seq::new(
                fields@.len(),
                |x: int| (fields@[x].0@, fields@[x].1.deep_view()),
            ));
            assert((r.deep_view())->Object_0 =~= spec_states_content_fields(sv));
        }
        r
    }
}

impl Default for TransitionStates {
    /// An empty map of states.
    fn default() -> (r: TransitionStates)
        ensures
            r@ == Seq::<(Seq<char>, Option<int>)>::empty(),
    {
        TransitionStates::new()
    }
}

} // verus!
