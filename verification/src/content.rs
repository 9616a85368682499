//! Structured resource content: the tree of values stored in a resource
//! file, and the version-substitution pass that replaces the literal token
//! `$version` inside every string leaf.

use vstd::prelude::*;

use crate::text::{str_to_chars, string_from_chars};

verus! {

broadcast use vstd::seq::axiom_seq_index_decreases, vstd::std_specs::vec::axiom_vec_decreases_to_view;

/// Spec-level shape of a content value.
#[verifier::ext_equal]
pub enum ContentView {
    Null,
    Bool(bool),
    Int(int),
    Text(Seq<char>),
    Array(Seq<ContentView>),
    Object(Seq<(Seq<char>, ContentView)>),
}

/// A structured value as stored in a resource file: scalars, arrays and
/// objects.  Numeric scalars are signed integers.
pub enum ContentValue {
    Null,
    Bool(bool),
    Int(i64),
    Text(String),
    Array(Vec<ContentValue>),
    Object(Vec<(String, ContentValue)>),
}

/// The view of a content value, mapping every `Vec` and `String` to its
/// mathematical counterpart.
pub open spec fn spec_content_view(v: ContentValue) -> ContentView
    decreases v,
{
    match v {
        ContentValue::Null => ContentView::Null,
        ContentValue::Bool(b) => ContentView::Bool(b),
        ContentValue::Int(n) => ContentView::Int(n as int),
        ContentValue::Text(s) => ContentView::Text(s@),
        ContentValue::Array(items) => ContentView::Array(
            Seq::new(
                items@.len(),
                |i: int|
                    if 0 <= i < items@.len() {
                        spec_content_view(items@[i])
                    } else {
                        ContentView::Null
                    },
            ),
        ),
        ContentValue::Object(fields) => ContentView::Object(
            Seq::new(
                fields@.len(),
                |i: int|
                    if 0 <= i < fields@.len() {
                        (fields@[i].0@, spec_content_view(fields@[i].1))
                    } else {
                        (Seq::empty(), ContentView::Null)
                    },
            ),
        ),
    }
}

impl DeepView for ContentValue {
    type V = ContentView;

    open spec fn deep_view(&self) -> ContentView {
        spec_content_view(*self)
    }
}

/// Whether `pat` occurs in `s` starting at position `i`.
pub open spec fn spec_match_at(s: Seq<char>, pat: Seq<char>, i: int) -> bool {
    0 <= i && i + pat.len() <= s.len() && s.subrange(i, i + pat.len()) == pat
}

/// Whether `pat` occurs anywhere in `s`.
pub open spec fn spec_occurs(s: Seq<char>, pat: Seq<char>) -> bool {
    exists|i: int| spec_match_at(s, pat, i)
}

/// Replacement of every occurrence of `pat` in `s` by `rep`, scanning left
/// to right without revisiting replaced text.
pub open spec fn spec_replace(s: Seq<char>, pat: Seq<char>, rep: Seq<char>) -> Seq<char>
    decreases s.len(),
{
    if pat.len() == 0 || s.len() < pat.len() {
        s
    } else if s.subrange(0, pat.len() as int) == pat {
        rep + spec_replace(s.skip(pat.len() as int), pat, rep)
    } else {
        seq![s[0]] + spec_replace(s.skip(1), pat, rep)
    }
}

/// If `pat` does not occur in `s`, replacement leaves `s` unchanged.
pub proof fn lemma_replace_identity(s: Seq<char>, pat: Seq<char>, rep: Seq<char>)
    requires
        !spec_occurs(s, pat),
    ensures
        spec_replace(s, pat, rep) == s,
    decreases s.len(),
{
    if pat.len() == 0 || s.len() < pat.len() {
    } else if s.subrange(0, pat.len() as int) == pat {
        assert(spec_match_at(s, pat, 0));
    } else {
        assert(!spec_occurs(s.skip(1), pat)) by {
            if spec_occurs(s.skip(1), pat) {
                let i = choose|i: int| spec_match_at(s.skip(1), pat, i);
                assert(s.skip(1).subrange(i, i + pat.len()) =~= s.subrange(
                    i + 1,
                    i + 1 + pat.len(),
                ));
                assert(spec_match_at(s, pat, i + 1));
            }
        }
        lemma_replace_identity(s.skip(1), pat, rep);
        assert(seq![s[0]] + s.skip(1) =~= s);
    }
}

/// The literal token replaced inside string leaves.
pub open spec fn spec_version_token() -> Seq<char> {
    "$version"@
}

/// Version substitution over a content view: every string leaf has each
/// occurrence of the token replaced; keys and non-string scalars are kept.
pub open spec fn spec_substitute(v: ContentView, rep: Seq<char>) -> ContentView
    decreases v,
{
    match v {
        ContentView::Null => ContentView::Null,
        ContentView::Bool(b) => ContentView::Bool(b),
        ContentView::Int(n) => ContentView::Int(n),
        ContentView::Text(s) => ContentView::Text(
            spec_replace(s, spec_version_token(), rep),
        ),
        ContentView::Array(items) => ContentView::Array(spec_substitute_all(items, rep)),
        ContentView::Object(fields) => ContentView::Object(spec_substitute_fields(fields, rep)),
    }
}

/// Version substitution applied to each element of an array.
pub open spec fn spec_substitute_all(items: Seq<ContentView>, rep: Seq<char>) -> Seq<ContentView>
    decreases items,
{
    if items.len() == 0 {
        Seq::empty()
    } else {
        seq![spec_substitute(items.first(), rep)] + spec_substitute_all(items.drop_first(), rep)
    }
}

/// Version substitution applied to the value of each object field.
pub open spec fn spec_substitute_fields(
    fields: Seq<(Seq<char>, ContentView)>,
    rep: Seq<char>,
) -> Seq<(Seq<char>, ContentView)>
    decreases fields,
{
    if fields.len() == 0 {
        Seq::empty()
    } else {
        seq![(fields.first().0, spec_substitute(fields.first().1, rep))]
            + spec_substitute_fields(fields.drop_first(), rep)
    }
}

/// Substituting over an array view acts elementwise.
pub proof fn lemma_substitute_all_index(items: Seq<ContentView>, rep: Seq<char>)
    ensures
        spec_substitute_all(items, rep).len() == items.len(),
        forall|i: int|
            0 <= i < items.len() ==> spec_substitute_all(items, rep)[i] == spec_substitute(
                #[trigger] items[i],
                rep,
            ),
    decreases items,
{
    if items.len() > 0 {
        lemma_substitute_all_index(items.drop_first(), rep);
        assert forall|i: int| 0 <= i < items.len() implies spec_substitute_all(items, rep)[i]
            == spec_substitute(#[trigger] items[i], rep) by {
            if i > 0 {
                assert(items.drop_first()[i - 1] == items[i]);
                assert(spec_substitute_all(items, rep)[i] == spec_substitute_all(
                    items.drop_first(),
                    rep,
                )[i - 1]);
            }
        }
    }
}

/// Substituting over an object view acts on each field's value.
pub proof fn lemma_substitute_fields_index(fields: Seq<(Seq<char>, ContentView)>, rep: Seq<char>)
    ensures
        spec_substitute_fields(fields, rep).len() == fields.len(),
        forall|i: int|
            0 <= i < fields.len() ==> spec_substitute_fields(fields, rep)[i] == (
                (#[trigger] fields[i]).0,
                spec_substitute(fields[i].1, rep),
            ),
    decreases fields,
{
    if fields.len() > 0 {
        lemma_substitute_fields_index(fields.drop_first(), rep);
        assert forall|i: int| 0 <= i < fields.len() implies spec_substitute_fields(fields, rep)[i]
            == ((#[trigger] fields[i]).0, spec_substitute(fields[i].1, rep)) by {
            if i > 0 {
                assert(fields.drop_first()[i - 1] == fields[i]);
                assert(spec_substitute_fields(fields, rep)[i] == spec_substitute_fields(
                    fields.drop_first(),
                    rep,
                )[i - 1]);
            }
        }
    }
}

/// Whether no string leaf of `v` contains the version token.
pub open spec fn spec_token_free(v: ContentView) -> bool
    decreases v,
{
    match v {
        ContentView::Null => true,
        ContentView::Bool(_) => true,
        ContentView::Int(_) => true,
        ContentView::Text(s) => !spec_occurs(s, spec_version_token()),
        ContentView::Array(items) => forall|i: int|
            0 <= i < items.len() ==> spec_token_free(#[trigger] items[i]),
        ContentView::Object(fields) => forall|i: int|
            0 <= i < fields.len() ==> spec_token_free(#[trigger] fields[i].1),
    }
}

/// Version substitution is the identity on values whose string leaves do not
/// mention the token.
pub proof fn lemma_substitute_identity(v: ContentView, rep: Seq<char>)
    requires
        spec_token_free(v),
    ensures
        spec_substitute(v, rep) == v,
    decreases v,
{
    match v {
        ContentView::Null => {},
        ContentView::Bool(_) => {},
        ContentView::Int(_) => {},
        ContentView::Text(s) => {
            lemma_replace_identity(s, spec_version_token(), rep);
        },
        ContentView::Array(items) => {
            lemma_substitute_all_index(items, rep);
            assert forall|i: int| 0 <= i < items.len() implies spec_substitute(
                #[trigger] items[i],
                rep,
            ) == items[i] by {
                lemma_substitute_identity(items[i], rep);
            }
            assert(spec_substitute_all(items, rep) =~= items);
        },
        ContentView::Object(fields) => {
            lemma_substitute_fields_index(fields, rep);
            assert forall|i: int| 0 <= i < fields.len() implies spec_substitute(
                #[trigger] fields[i].1,
                rep,
            ) == fields[i].1 by {
                lemma_substitute_identity(fields[i].1, rep);
            }
            assert(spec_substitute_fields(fields, rep) =~= fields);
        },
    }
}

/// Replaces every occurrence of `pat` in `s` by `rep`, left to right.
fn replace_chars(s: &Vec<char>, pat: &Vec<char>, rep: &Vec<char>) -> (r: Vec<char>)
    requires
        pat@.len() > 0,
    ensures
        r@ == spec_replace(s@, pat@, rep@),
{
    let n = s.len();
    let mut out: Vec<char> = Vec::new();
    let mut i: usize = 0;
    proof {
        assert(s@.skip(0) == s@);
    }
    while i < n
        invariant
            pat@.len() > 0,
            n == s@.len(),
            i <= n,
            spec_replace(s@, pat@, rep@) == out@ + spec_replace(s@.skip(i as int), pat@, rep@),
        decreases n - i,
    {
        let mut matches = pat.len() <= n - i;
        if matches {
            let mut k: usize = 0;
            while k < pat.len()
                invariant
                    n == s@.len(),
                    i + pat@.len() <= n,
                    k <= pat@.len(),
                    matches <==> (forall|j: int| 0 <= j < k ==> s@[i + j] == pat@[j]),
                decreases pat@.len() - k,
            {
                matches = matches && s[i + k] == pat[k];
                k = k + 1;
            }
        }
        proof {
            let tail = s@.skip(i as int);
            if matches {
                assert(tail.subrange(0, pat@.len() as int) =~= pat@);
            } else {
                if i + pat@.len() <= s@.len() && tail.subrange(0, pat@.len() as int) == pat@ {
                    assert(forall|j: int|
                        0 <= j < pat@.len() ==> s@[i + j] == tail.subrange(
                            0,
                            pat@.len() as int,
                        )[j]);
                }
            }
        }
        if matches {
            let ghost out0 = out@;
            let mut k: usize = 0;
            while k < rep.len()
                invariant
                    k <= rep@.len(),
                    out@ == out0 + rep@.subrange(0, k as int),
                decreases rep@.len() - k,
            {
                out.push(rep[k]);
                proof {
                    assert(rep@.subrange(0, k + 1) == rep@.subrange(0, k as int).push(
                        rep@[k as int],
                    ));
                }
                k = k + 1;
            }
            proof {
                assert(rep@.subrange(0, rep@.len() as int) == rep@);
                assert(s@.skip(i as int).skip(pat@.len() as int) =~= s@.skip(
                    i as int + pat@.len() as int,
                ));
            }
            i = i + pat.len();
        } else {
            out.push(s[i]);
            proof {
                assert(s@.skip(i as int).skip(1) =~= s@.skip(i + 1));
                assert(seq![s@[i as int]] =~= s@.skip(i as int).subrange(0, 1));
            }
            i = i + 1;
        }
    }
    proof {
        assert(s@.skip(s@.len() as int) =~= Seq::<char>::empty());
    }
    out
}

/// Looks a key up among object fields: the first binding wins.
pub open spec fn spec_object_get(
    fields: Seq<(Seq<char>, ContentView)>,
    key: Seq<char>,
) -> Option<ContentView>
    decreases fields.len(),
{
    if fields.len() == 0 {
        None
    } else if fields[0].0 == key {
        Some(fields[0].1)
    } else {
        spec_object_get(fields.drop_first(), key)
    }
}

impl ContentValue {
    /// Returns the value bound to `key` if this value is an object holding
    /// that key; `None` otherwise.
    pub fn get<'a>(&'a self, key: &str) -> (r: Option<&'a ContentValue>)
        ensures
            match (self.deep_view(), r) {
                (ContentView::Object(fields), Some(v)) => spec_object_get(fields, key@) == Some(
                    v.deep_view(),
                ),
                (ContentView::Object(fields), None) => spec_object_get(fields, key@) is None,
                (_, r) => r is None,
            },
    {
        let key_string = key.to_owned();
        match self {
            ContentValue::Object(fields) => {
                let ghost fview = (self.deep_view())->Object_0;
                proof {
                    assert(fview.skip(0) =~= fview);
                }
                let mut i: usize = 0;
                while i < fields.len()
                    invariant
                        i <= fields@.len(),
                        key_string@ == key@,
                        self.deep_view() == ContentView::Object(fview),
                        fview.len() == fields@.len(),
                        forall|j: int|
                            0 <= j < fview.len() ==> #[trigger] fview[j] == (
                                fields@[j].0@,
                                fields@[j].1.deep_view(),
                            ),
                        spec_object_get(fview, key@) == spec_object_get(
                            fview.skip(i as int),
                            key@,
                        ),
                    decreases fields@.len() - i,
                {
                    proof {
                        assert(fview.skip(i as int)[0] == fview[i as int]);
                        assert(fview.skip(i as int).drop_first() =~= fview.skip(i + 1));
                        let ghost fi = fields@[i as int];
                        assert(fview[i as int] == (fi.0@, fi.1.deep_view()));
                    }
                    if fields[i].0.eq(&key_string) {
                        return Some(&fields[i].1);
                    }
                    i = i + 1;
                }
                proof {
                    assert(fview.skip(fview.len() as int) =~= Seq::<
                        (Seq<char>, ContentView),
                    >::empty());
                }
                None
            },
            _ => None,
        }
    }

    /// Copies this value.
    pub fn deep_clone(&self) -> (r: ContentValue)
        ensures
            r.deep_view() == self.deep_view(),
        decreases self,
    {
        match self {
            ContentValue::Null => ContentValue::Null,
            ContentValue::Bool(b) => ContentValue::Bool(*b),
            ContentValue::Int(n) => ContentValue::Int(*n),
            ContentValue::Text(s) => ContentValue::Text(s.clone()),
            ContentValue::Array(items) => {
                let mut out: Vec<ContentValue> = Vec::new();
                let mut i: usize = 0;
                while i < items.len()
                    invariant
                        *self == ContentValue::Array(*items),
                        i <= items@.len(),
                        out@.len() == i,
                        forall|j: int|
                            0 <= j < i ==> (#[trigger] out@[j]).deep_view()
                                == items@[j].deep_view(),
                    decreases items@.len() - i,
                {
                    proof {
                        let vv = *self;
                        assert(decreases_to!(vv => vv->Array_0));
                        let elems = vv->Array_0;
                        assert(decreases_to!(elems => elems@[i as int]));
                        assert(decreases_to!(*self => items@[i as int]));
                    }
                    out.push(items[i].deep_clone());
                    i = i + 1;
                }
                let r = ContentValue::Array(out);
                proof {
                    assert(items.deep_view() =~= (self.deep_view())->Array_0);
                    assert(out.deep_view() =~= (r.deep_view())->Array_0);
                    assert(out.deep_view() =~= items.deep_view());
                }
                r
            },
            ContentValue::Object(fields) => {
                let mut out: Vec<(String, ContentValue)> = Vec::new();
                let mut i: usize = 0;
                while i < fields.len()
                    invariant
                        *self == ContentValue::Object(*fields),
                        i <= fields@.len(),
                        out@.len() == i,
                        forall|j: int|
                            0 <= j < i ==> (#[trigger] out@[j]).0@ == fields@[j].0@
                                && out@[j].1.deep_view() == fields@[j].1.deep_view(),
                    decreases fields@.len() - i,
                {
                    proof {
                        let vv = *self;
                        assert(decreases_to!(vv => vv->Object_0));
                        let elems = vv->Object_0;
                        assert(decreases_to!(elems => elems@[i as int]));
                        assert(decreases_to!(elems@[i as int] => elems@[i as int].1));
                        assert(decreases_to!(*self => fields@[i as int].1));
                    }
                    let key = fields[i].0.clone();
                    let val = fields[i].1.deep_clone();
                    out.push((key, val));
                    i = i + 1;
                }
                let r = ContentValue::Object(out);
                proof {
                    assert(fields.deep_view() =~~= (self.deep_view())->Object_0);
                    assert(out.deep_view() =~~= (r.deep_view())->Object_0);
                    assert(out.deep_view() =~~= fields.deep_view());
                }
                r
            },
        }
    }

    /// Applies version substitution to every string leaf of this value.
    pub fn substitute(&self, rep: &Vec<char>) -> (r: ContentValue)
        ensures
            r.deep_view() == spec_substitute(self.deep_view(), rep@),
        decreases self,
    {
        match self {
            ContentValue::Null => ContentValue::Null,
            ContentValue::Bool(b) => ContentValue::Bool(*b),
            ContentValue::Int(n) => ContentValue::Int(*n),
            ContentValue::Text(s) => {
                let chars = str_to_chars(s.as_str());
                let pat = str_to_chars("$version");
                proof {
                    reveal_strlit("$version");
                }
                let replaced = replace_chars(&chars, &pat, rep);
                ContentValue::Text(string_from_chars(&replaced))
            },
            ContentValue::Array(items) => {
                let mut out: Vec<ContentValue> = Vec::new();
                let mut i: usize = 0;
                while i < items.len()
                    invariant
                        *self == ContentValue::Array(*items),
                        i <= items@.len(),
                        out@.len() == i,
                        forall|j: int|
                            0 <= j < i ==> (#[trigger] out@[j]).deep_view() == spec_substitute(
                                items@[j].deep_view(),
                                rep@,
                            ),
                    decreases items@.len() - i,
                {
                    proof {
                        let vv = *self;
                        assert(decreases_to!(vv => vv->Array_0));
                        let elems = vv->Array_0;
                        assert(decreases_to!(elems => elems@[i as int]));
                        assert(decreases_to!(*self => items@[i as int]));
                    }
                    out.push(items[i].substitute(rep));
                    i = i + 1;
                }
                let r = ContentValue::Array(out);
                proof {
                    assert(items.deep_view() =~= (self.deep_view())->Array_0);
                    assert(out.deep_view() =~= (r.deep_view())->Array_0);
                    lemma_substitute_all_index(items.deep_view(), rep@);
                    assert forall|j: int| 0 <= j < out@.len() implies out.deep_view()[j]
                        == spec_substitute_all(items.deep_view(), rep@)[j] by {
                        assert(items.deep_view()[j] == items@[j].deep_view());
                        assert(out.deep_view()[j] == out@[j].deep_view());
                    }
                    assert(out.deep_view() =~= spec_substitute_all(items.deep_view(), rep@));
                }
                r
            },
            ContentValue::Object(fields) => {
                let mut out: Vec<(String, ContentValue)> = Vec::new();
                let mut i: usize = 0;
                while i < fields.len()
                    invariant
                        *self == ContentValue::Object(*fields),
                        i <= fields@.len(),
                        out@.len() == i,
                        forall|j: int|
                            0 <= j < i ==> (#[trigger] out@[j]).0@ == fields@[j].0@
                                && out@[j].1.deep_view() == spec_substitute(
                                fields@[j].1.deep_view(),
                                rep@,
                            ),
                    decreases fields@.len() - i,
                {
                    proof {
                        let vv = *self;
                        assert(decreases_to!(vv => vv->Object_0));
                        let elems = vv->Object_0;
                        assert(decreases_to!(elems => elems@[i as int]));
                        assert(decreases_to!(elems@[i as int] => elems@[i as int].1));
                        assert(decreases_to!(*self => fields@[i as int].1));
                    }
                    let key = fields[i].0.clone();
                    let val = fields[i].1.substitute(rep);
                    out.push((key, val));
                    i = i + 1;
                }
                let r = ContentValue::Object(out);
                proof {
                    assert(fields.deep_view() =~~= (self.deep_view())->Object_0);
                    assert(out.deep_view() =~~= (r.deep_view())->Object_0);
                    lemma_substitute_fields_index(fields.deep_view(), rep@);
                    assert forall|j: int| 0 <= j < out@.len() implies out.deep_view()[j]
                        == spec_substitute_fields(fields.deep_view(), rep@)[j] by {
                        assert(fields.deep_view()[j] == (
                            fields@[j].0@,
                            fields@[j].1.deep_view(),
                        ));
                        assert(out.deep_view()[j] == (out@[j].0@, out@[j].1.deep_view()));
                    }
                    assert(out.deep_view() =~= spec_substitute_fields(fields.deep_view(), rep@));
                }
                r
            },
        }
    }
}

} // verus!
