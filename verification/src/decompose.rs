//! The locale decomposer.
//!
//! A bilingual record is split into two single-language projections: every
//! locale object in the value tree (a mapping carrying the key "de" or
//! "en") is collapsed to the value at the requested language's key, or to
//! an empty string when that key is absent; plain mappings and sequences
//! are preserved structurally with their children decomposed; scalars pass
//! through unchanged.

use vstd::prelude::*;

use crate::value::RawValue;
use crate::value::Val;
use crate::value::entries_view;
use crate::value::lemma_entries_view;
use crate::value::lemma_views_of;
use crate::value::views_of;

verus! {

/// The field name that marks the German half of a locale object.
pub open spec fn de_key() -> Seq<char> {
    "de"@
}

/// The field name that marks the English half of a locale object.
pub open spec fn en_key() -> Seq<char> {
    "en"@
}

/// The two target languages of a decomposition.
#[derive(Clone, Copy, PartialEq, Eq, Structural, Debug)]
pub enum Lang {
    De,
    En,
}

impl Lang {
    /// The field name this language is stored under in a locale object.
    pub open spec fn spec_key(self) -> Seq<char> {
        match self {
            Lang::De => de_key(),
            Lang::En => en_key(),
        }
    }

    /// The field name this language is stored under, as a string slice.
    pub fn key(self) -> (r: &'static str)
        ensures
            r@ == self.spec_key(),
    {
        match self {
            Lang::De => "de",
            Lang::En => "en",
        }
    }
}

/// Whether some entry of the mapping binds the field name `k`.
pub open spec fn dict_has(entries: Seq<(Seq<char>, Val)>, k: Seq<char>) -> bool {
    exists|i: int| 0 <= i < entries.len() && entries[i].0 == k
}

/// The value bound to `k` by the first entry that binds it (`Null` if none).
pub open spec fn dict_get(entries: Seq<(Seq<char>, Val)>, k: Seq<char>) -> Val
    decreases entries.len(),
{
    if entries.len() == 0 {
        Val::Null
    } else if entries[0].0 == k {
        entries[0].1
    } else {
        dict_get(entries.drop_first(), k)
    }
}

/// A mapping is a locale object when it binds "de" or "en".
pub open spec fn is_locale_object(entries: Seq<(Seq<char>, Val)>) -> bool {
    dict_has(entries, de_key()) || dict_has(entries, en_key())
}

/// When `k` is bound, `dict_get` yields the value of one of the entries
/// binding `k`.
pub proof fn lemma_dict_get_is_entry(entries: Seq<(Seq<char>, Val)>, k: Seq<char>)
    requires
        dict_has(entries, k),
    ensures
        exists|i: int|
            0 <= i < entries.len() && entries[i].0 == k && entries[i].1 == dict_get(entries, k),
    decreases entries.len(),
{
    if entries[0].0 == k {
        assert(entries[0].1 == dict_get(entries, k));
    } else {
        assert(dict_has(entries.drop_first(), k)) by {
            let i = choose|i: int| 0 <= i < entries.len() && entries[i].0 == k;
            assert(entries.drop_first()[i - 1] == entries[i]);
        }
        lemma_dict_get_is_entry(entries.drop_first(), k);
        let j = choose|j: int|
            0 <= j < entries.drop_first().len() && entries.drop_first()[j].0 == k
                && entries.drop_first()[j].1 == dict_get(entries.drop_first(), k);
        assert(entries[j + 1] == entries.drop_first()[j]);
    }
}

/// When the first entry binding `k` stands at index `j`, `dict_get` yields
/// that entry's value.
pub proof fn lemma_dict_get_first_match(entries: Seq<(Seq<char>, Val)>, k: Seq<char>, j: int)
    requires
        0 <= j < entries.len(),
        entries[j].0 == k,
        forall|i: int| 0 <= i < j ==> entries[i].0 != k,
    ensures
        dict_has(entries, k),
        dict_get(entries, k) == entries[j].1,
    decreases j,
{
    if j == 0 {
    } else {
        assert(entries.drop_first()[j - 1] == entries[j]);
        assert(forall|i: int|
            0 <= i < j - 1 ==> entries.drop_first()[i] == entries[i + 1]
                && entries.drop_first()[i].0 != k);
        lemma_dict_get_first_match(entries.drop_first(), k, j - 1);
    }
}

/// Decomposition of one value for one target language.
pub open spec fn spec_decompose(v: Val, lang: Lang) -> Val
    decreases v,
{
    match v {
        Val::List(items) => Val::List(spec_decompose_list(items, lang)),
        Val::Dict(entries) => {
            if is_locale_object(entries) {
                if dict_has(entries, lang.spec_key()) {
                    proof {
                        lemma_dict_get_is_entry(entries, lang.spec_key());
                        let i = choose|i: int|
                            0 <= i < entries.len() && entries[i].0 == lang.spec_key()
                                && entries[i].1 == dict_get(entries, lang.spec_key());
                        assert(decreases_to!(v => entries));
                        assert(decreases_to!(entries => entries[i]));
                        assert(decreases_to!(entries[i] => entries[i].1));
                    }
                    spec_decompose(dict_get(entries, lang.spec_key()), lang)
                } else {
                    Val::Text(Seq::empty())
                }
            } else {
                Val::Dict(spec_decompose_entries(entries, lang))
            }
        },
        _ => v,
    }
}

/// Decomposition of the elements of a sequence, order preserved.
pub open spec fn spec_decompose_list(items: Seq<Val>, lang: Lang) -> Seq<Val>
    decreases items,
{
    if items.len() == 0 {
        Seq::empty()
    } else {
        seq![spec_decompose(items[0], lang)] + spec_decompose_list(items.drop_first(), lang)
    }
}

/// Decomposition of the entries of a plain mapping: stray "de"/"en"
/// entries are dropped defensively, the remaining values are decomposed,
/// order preserved.
pub open spec fn spec_decompose_entries(entries: Seq<(Seq<char>, Val)>, lang: Lang) -> Seq<
    (Seq<char>, Val),
>
    decreases entries,
{
    if entries.len() == 0 {
        Seq::empty()
    } else {
        let rest = spec_decompose_entries(entries.drop_first(), lang);
        if entries[0].0 == de_key() || entries[0].0 == en_key() {
            rest
        } else {
            seq![(entries[0].0, spec_decompose(entries[0].1, lang))] + rest
        }
    }
}

/// Default substitution: a locale object that does not bind the requested
/// language decomposes to an empty string.
pub proof fn lemma_default_substitution(entries: Seq<(Seq<char>, Val)>, lang: Lang)
    requires
        is_locale_object(entries),
        !dict_has(entries, lang.spec_key()),
    ensures
        spec_decompose(Val::Dict(entries), lang) == Val::Text(Seq::<char>::empty()),
{
}

/// A locale object that binds the requested language collapses to the
/// decomposition of the bound value: no partial merge of the two halves.
pub proof fn lemma_locale_collapse(entries: Seq<(Seq<char>, Val)>, lang: Lang)
    requires
        is_locale_object(entries),
        dict_has(entries, lang.spec_key()),
    ensures
        spec_decompose(Val::Dict(entries), lang) == spec_decompose(
            dict_get(entries, lang.spec_key()),
            lang,
        ),
{
}

/// `v` with, in every locale object at every depth, the value of every
/// entry not bound to `lang` replaced by `Null`.
pub open spec fn spec_mask_other(v: Val, lang: Lang) -> Val
    decreases v,
{
    match v {
        Val::List(items) => Val::List(spec_mask_list(items, lang)),
        Val::Dict(entries) => {
            if is_locale_object(entries) {
                Val::Dict(spec_mask_locale_entries(entries, lang))
            } else {
                Val::Dict(spec_mask_entries(entries, lang))
            }
        },
        _ => v,
    }
}

/// Masking of the elements of a sequence.
pub open spec fn spec_mask_list(items: Seq<Val>, lang: Lang) -> Seq<Val>
    decreases items,
{
    if items.len() == 0 {
        Seq::empty()
    } else {
        seq![spec_mask_other(items[0], lang)] + spec_mask_list(items.drop_first(), lang)
    }
}

/// Masking of the entries of a locale object: the requested language's
/// values are masked recursively, every other value is replaced by `Null`;
/// all field names stay.
pub open spec fn spec_mask_locale_entries(entries: Seq<(Seq<char>, Val)>, lang: Lang) -> Seq<
    (Seq<char>, Val),
>
    decreases entries,
{
    if entries.len() == 0 {
        Seq::empty()
    } else {
        let head = if entries[0].0 == lang.spec_key() {
            (entries[0].0, spec_mask_other(entries[0].1, lang))
        } else {
            (entries[0].0, Val::Null)
        };
        seq![head] + spec_mask_locale_entries(entries.drop_first(), lang)
    }
}

/// Masking of the entries of a plain mapping: every value is masked
/// recursively, all field names stay.
pub open spec fn spec_mask_entries(entries: Seq<(Seq<char>, Val)>, lang: Lang) -> Seq<
    (Seq<char>, Val),
>
    decreases entries,
{
    if entries.len() == 0 {
        Seq::empty()
    } else {
        seq![(entries[0].0, spec_mask_other(entries[0].1, lang))] + spec_mask_entries(
            entries.drop_first(),
            lang,
        )
    }
}

/// Masking keeps the field names of a locale object, entry for entry.
proof fn lemma_mask_locale_entries_elem(entries: Seq<(Seq<char>, Val)>, lang: Lang)
    ensures
        spec_mask_locale_entries(entries, lang).len() == entries.len(),
        forall|i: int|
            0 <= i < entries.len() ==> spec_mask_locale_entries(entries, lang)[i]
                == (if entries[i].0 == lang.spec_key() {
                    (entries[i].0, spec_mask_other(entries[i].1, lang))
                } else {
                    (entries[i].0, Val::Null)
                }),
    decreases entries.len(),
{
    if entries.len() > 0 {
        lemma_mask_locale_entries_elem(entries.drop_first(), lang);
    }
}

/// Masking keeps the field names of a plain mapping, entry for entry.
proof fn lemma_mask_entries_elem(entries: Seq<(Seq<char>, Val)>, lang: Lang)
    ensures
        spec_mask_entries(entries, lang).len() == entries.len(),
        forall|i: int|
            0 <= i < entries.len() ==> spec_mask_entries(entries, lang)[i]
                == (entries[i].0, spec_mask_other(entries[i].1, lang)),
    decreases entries.len(),
{
    if entries.len() > 0 {
        lemma_mask_entries_elem(entries.drop_first(), lang);
    }
}

/// Masking keeps which field names a locale object binds, and the value
/// the requested language's key is bound to is masked recursively.
proof fn lemma_mask_locale_entries_get(entries: Seq<(Seq<char>, Val)>, lang: Lang, k: Seq<char>)
    ensures
        dict_has(spec_mask_locale_entries(entries, lang), k) == dict_has(entries, k),
        dict_has(entries, lang.spec_key()) && k == lang.spec_key() ==> dict_get(
            spec_mask_locale_entries(entries, lang),
            k,
        ) == spec_mask_other(dict_get(entries, k), lang),
    decreases entries.len(),
{
    lemma_mask_locale_entries_elem(entries, lang);
    let masked = spec_mask_locale_entries(entries, lang);
    assert(dict_has(masked, k) == dict_has(entries, k)) by {
        if dict_has(entries, k) {
            let i = choose|i: int| 0 <= i < entries.len() && entries[i].0 == k;
            assert(masked[i].0 == k);
        }
        if dict_has(masked, k) {
            let i = choose|i: int| 0 <= i < masked.len() && masked[i].0 == k;
            assert(entries[i].0 == k);
        }
    }
    if entries.len() > 0 {
        lemma_mask_locale_entries_get(entries.drop_first(), lang, k);
        assert(masked.drop_first() =~= spec_mask_locale_entries(entries.drop_first(), lang));
        if dict_has(entries.drop_first(), k) {
            let i = choose|i: int|
                0 <= i < entries.drop_first().len() && entries.drop_first()[i].0 == k;
            assert(entries[i + 1].0 == k);
        }
    }
}

/// Locale isolation: the projection for one language does not depend on
/// the values stored for the other language, at any nesting depth.
/// Replacing every such value by `Null` leaves the projection unchanged;
/// in particular the projection never carries the other language's value.
pub proof fn lemma_locale_isolation(v: Val, lang: Lang)
    ensures
        spec_decompose(spec_mask_other(v, lang), lang) == spec_decompose(v, lang),
    decreases v,
{
    match v {
        Val::List(items) => {
            lemma_locale_isolation_list(items, lang);
        },
        Val::Dict(entries) => {
            let lk = lang.spec_key();
            if is_locale_object(entries) {
                lemma_mask_locale_entries_get(entries, lang, de_key());
                lemma_mask_locale_entries_get(entries, lang, en_key());
                lemma_mask_locale_entries_get(entries, lang, lk);
                let masked = spec_mask_locale_entries(entries, lang);
                assert(is_locale_object(masked));
                if dict_has(entries, lk) {
                    lemma_dict_get_is_entry(entries, lk);
                    let i = choose|i: int|
                        0 <= i < entries.len() && entries[i].0 == lk && entries[i].1 == dict_get(
                            entries,
                            lk,
                        );
                    assert(decreases_to!(v => entries));
                    assert(decreases_to!(entries => entries[i]));
                    assert(decreases_to!(entries[i] => entries[i].1));
                    lemma_locale_isolation(dict_get(entries, lk), lang);
                    assert(dict_get(masked, lk) == spec_mask_other(dict_get(entries, lk), lang));
                } else {
                    assert(spec_decompose(Val::Dict(masked), lang) == Val::Text(
                        Seq::<char>::empty(),
                    ));
                }
            } else {
                lemma_mask_entries_elem(entries, lang);
                let masked = spec_mask_entries(entries, lang);
                assert(!is_locale_object(masked)) by {
                    if dict_has(masked, de_key()) {
                        let i = choose|i: int| 0 <= i < masked.len() && masked[i].0 == de_key();
                        assert(entries[i].0 == de_key());
                    }
                    if dict_has(masked, en_key()) {
                        let i = choose|i: int| 0 <= i < masked.len() && masked[i].0 == en_key();
                        assert(entries[i].0 == en_key());
                    }
                }
                lemma_locale_isolation_entries(entries, lang);
            }
        },
        _ => {},
    }
}

/// Locale isolation, lifted over the elements of a sequence.
proof fn lemma_locale_isolation_list(items: Seq<Val>, lang: Lang)
    ensures
        spec_decompose_list(spec_mask_list(items, lang), lang) == spec_decompose_list(items, lang),
    decreases items,
{
    if items.len() > 0 {
        assert(decreases_to!(items => items[0]));
        lemma_locale_isolation(items[0], lang);
        lemma_locale_isolation_list(items.drop_first(), lang);
        let masked = spec_mask_list(items, lang);
        assert(masked == seq![spec_mask_other(items[0], lang)] + spec_mask_list(
            items.drop_first(),
            lang,
        ));
        assert(masked[0] == spec_mask_other(items[0], lang));
        assert(masked.drop_first() =~= spec_mask_list(items.drop_first(), lang));
        assert(spec_decompose_list(masked, lang) == seq![
            spec_decompose(spec_mask_other(items[0], lang), lang),
        ] + spec_decompose_list(masked.drop_first(), lang));
    }
}

/// Locale isolation, lifted over the entries of a plain mapping.
proof fn lemma_locale_isolation_entries(entries: Seq<(Seq<char>, Val)>, lang: Lang)
    ensures
        spec_decompose_entries(spec_mask_entries(entries, lang), lang) == spec_decompose_entries(
            entries,
            lang,
        ),
    decreases entries,
{
    if entries.len() > 0 {
        assert(decreases_to!(entries => entries[0]));
        assert(decreases_to!(entries[0] => entries[0].1));
        lemma_locale_isolation(entries[0].1, lang);
        lemma_locale_isolation_entries(entries.drop_first(), lang);
        let masked = spec_mask_entries(entries, lang);
        assert(masked == seq![(entries[0].0, spec_mask_other(entries[0].1, lang))]
            + spec_mask_entries(entries.drop_first(), lang));
        assert(masked[0] == (entries[0].0, spec_mask_other(entries[0].1, lang)));
        assert(masked.drop_first() =~= spec_mask_entries(entries.drop_first(), lang));
    }
}

/// First entry of the mapping binding the field name `k`, if any.
pub fn dict_find(entries: &Vec<(String, RawValue)>, k: &str) -> (r: Option<usize>)
    ensures
        match r {
            Some(j) => {
                &&& j < entries@.len()
                &&& entries@[j as int].0@ == k@
                &&& dict_has(entries_view(entries@), k@)
                &&& dict_get(entries_view(entries@), k@) == entries@[j as int].1@
            },
            None => !dict_has(entries_view(entries@), k@),
        },
{
    proof {
        lemma_entries_view(entries@);
    }
    let ghost m = entries_view(entries@);
    let kk: String = k.to_owned();
    let mut j: usize = 0;
    while j < entries.len()
        invariant
            j <= entries@.len(),
            kk@ == k@,
            m == entries_view(entries@),
            m.len() == entries@.len(),
            forall|i: int| 0 <= i < m.len() ==> m[i] == (entries@[i].0@, entries@[i].1@),
            forall|i: int| 0 <= i < j ==> m[i].0 != k@,
        decreases entries@.len() - j,
    {
        if entries[j].0 == kk {
            proof {
                lemma_dict_get_first_match(m, k@, j as int);
            }
            return Some(j);
        }
        j += 1;
    }
    None
}

/// Decompose an ordered mapping for one target language; this is the
/// mapping case of [`RawValue::decompose`], usable directly on a fetched
/// record row.
pub fn decompose_dict(entries: &Vec<(String, RawValue)>, lang: Lang) -> (r: RawValue)
    ensures
        r@ == spec_decompose(Val::Dict(entries_view(entries@)), lang),
    decreases *entries,
{

    let ghost m = entries_view(entries@);
    proof {
        lemma_entries_view(entries@);
    }
    let has_de = dict_find(entries, "de").is_some();
    let has_en = dict_find(entries, "en").is_some();
    if has_de || has_en {
        match dict_find(entries, lang.key()) {
            Some(j) => {
                proof {
                    assert(decreases_to!(*entries => entries@));
                    assert(decreases_to!(entries@ => entries@[j as int]));
                    assert(decreases_to!(
                        entries@[j as int] => entries@[j as int].1
                    ));
                    assert(decreases_to!(*entries => entries@[j as int].1));
                }
                entries[j].1.decompose(lang)
            },
            None => RawValue::Text(String::new()),
        }
    } else {
        proof {
            assert(m.skip(0) =~= m);
            assert(entries_view(Seq::<(String, RawValue)>::empty()) =~= Seq::<
                (Seq<char>, Val),
            >::empty());
            assert(Seq::<(Seq<char>, Val)>::empty() + spec_decompose_entries(m, lang)
                =~= spec_decompose_entries(m, lang));
        }
        let de_name: String = "de".to_owned();
        let en_name: String = "en".to_owned();
        let mut out: Vec<(String, RawValue)> = Vec::new();
        let mut j: usize = 0;
        while j < entries.len()
            invariant
                j <= entries@.len(),
                de_name@ == de_key(),
                en_name@ == en_key(),
                m == entries_view(entries@),
                m.len() == entries@.len(),
                forall|i: int|
                    0 <= i < m.len() ==> m[i] == (entries@[i].0@, entries@[i].1@),
                spec_decompose_entries(m, lang) == entries_view(out@)
                    + spec_decompose_entries(m.skip(j as int), lang),
            decreases entries@.len() - j,
        {
            let ghost out_pre = out@;
            proof {
                assert(m.skip(j as int)[0] == m[j as int]);
                assert(m.skip(j as int).drop_first() =~= m.skip(j as int + 1));
            }
            if entries[j].0 == de_name || entries[j].0 == en_name {
            } else {
                proof {
                    assert(decreases_to!(*entries => entries@));
                    assert(decreases_to!(entries@ => entries@[j as int]));
                    assert(decreases_to!(
                        entries@[j as int] => entries@[j as int].1
                    ));
                    assert(decreases_to!(*entries => entries@[j as int].1));
                }
                let d = entries[j].1.decompose(lang);
                let name = entries[j].0.clone();
                out.push((name, d));
                proof {
                    lemma_entries_view(out@);
                    lemma_entries_view(out_pre);
                    assert(entries_view(out@) =~= entries_view(out_pre).push(
                        (m[j as int].0, spec_decompose(m[j as int].1, lang)),
                    ));
                    assert(entries_view(out_pre) + (seq![
                        (m[j as int].0, spec_decompose(m[j as int].1, lang)),
                    ] + spec_decompose_entries(m.skip(j as int + 1), lang))
                        =~= entries_view(out@) + spec_decompose_entries(
                        m.skip(j as int + 1),
                        lang,
                    ));
                }
            }
            j += 1;
        }
        proof {
            assert(m.skip(m.len() as int) =~= Seq::<(Seq<char>, Val)>::empty());
            assert(spec_decompose_entries(Seq::empty(), lang) =~= Seq::<
                (Seq<char>, Val),
            >::empty());
            assert(entries_view(out@) + Seq::<(Seq<char>, Val)>::empty()
                =~= entries_view(out@));
        }
        RawValue::Dict(out)
    }
}

impl RawValue {
    /// Decompose this value for one target language: locale objects
    /// collapse to that language's entry (empty string when absent),
    /// sequences and plain mappings are preserved structurally, scalars
    /// pass through.
    pub fn decompose(&self, lang: Lang) -> (r: RawValue)
        ensures
            r@ == spec_decompose(self@, lang),
        decreases *self,
    {
        match self {
            RawValue::Null => RawValue::Null,
            RawValue::Bool(b) => RawValue::Bool(*b),
            RawValue::Int(i) => RawValue::Int(*i),
            RawValue::Num(s) => RawValue::Num(s.clone()),
            RawValue::Text(s) => RawValue::Text(s.clone()),
            RawValue::List(items) => {
                let ghost m = views_of(items@);
                proof {
                    lemma_views_of(items@);
                    assert(m.skip(0) =~= m);
                    assert(views_of(Seq::<RawValue>::empty()) =~= Seq::<Val>::empty());
                    assert(Seq::<Val>::empty() + spec_decompose_list(m, lang)
                        =~= spec_decompose_list(m, lang));
                }
                let mut out: Vec<RawValue> = Vec::new();
                let mut j: usize = 0;
                while j < items.len()
                    invariant
                        j <= items@.len(),
                        *self == RawValue::List(*items),
                        m == views_of(items@),
                        m.len() == items@.len(),
                        forall|i: int| 0 <= i < m.len() ==> m[i] == items@[i]@,
                        spec_decompose_list(m, lang) == views_of(out@) + spec_decompose_list(
                            m.skip(j as int),
                            lang,
                        ),
                    decreases items@.len() - j,
                {
                    proof {
                        assert((*self)->List_0 == *items);
                        assert(decreases_to!(*self => *items));
                        assert(decreases_to!(*items => items@));
                        assert(decreases_to!(items@ => items@[j as int]));
                        assert(decreases_to!(*self => items@[j as int]));
                    }
                    let ghost out_pre = out@;
                    let d = items[j].decompose(lang);
                    out.push(d);
                    proof {
                        lemma_views_of(out@);
                        lemma_views_of(out_pre);
                        assert(views_of(out@) =~= views_of(out_pre).push(
                            spec_decompose(m[j as int], lang),
                        ));
                        assert(m.skip(j as int)[0] == m[j as int]);
                        assert(m.skip(j as int).drop_first() =~= m.skip(j as int + 1));
                        assert(spec_decompose_list(m.skip(j as int), lang) == seq![
                            spec_decompose(m[j as int], lang),
                        ] + spec_decompose_list(m.skip(j as int + 1), lang));
                        assert(views_of(out_pre) + (seq![spec_decompose(m[j as int], lang)]
                            + spec_decompose_list(m.skip(j as int + 1), lang)) =~= views_of(out@)
                            + spec_decompose_list(m.skip(j as int + 1), lang));
                    }
                    j += 1;
                }
                proof {
                    assert(m.skip(m.len() as int) =~= Seq::<Val>::empty());
                    assert(spec_decompose_list(Seq::empty(), lang) == Seq::<Val>::empty());
                    assert(views_of(out@) + Seq::<Val>::empty() =~= views_of(out@));
                }
                RawValue::List(out)
            },
            RawValue::Dict(entries) => {
                proof {
                    assert((*self)->Dict_0 == *entries);
                    assert(decreases_to!(*self => *entries));
                }
                decompose_dict(entries, lang)
            },
        }
    }
}

} // verus!
