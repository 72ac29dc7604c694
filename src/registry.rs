use vstd::prelude::*;

use crate::ident::TTSIdent;

verus! {

/// Why a registry operation failed.
#[derive(Debug, Clone, PartialEq, Eq)]
pub enum Error {
    /// No model with this identifier is loaded.
    ModelNotFoundError(String),
    /// A style index outside the style table of a model.
    StyleIndexOutOfRange { style_id: i32, rows: usize },
    /// The aligned features do not have one row per phoneme position.
    FeatureLengthMismatch { feature_rows: usize, phones: usize },
}

/// A loaded voice model: its identifier and the resources it owns (the
/// inference session and the style table).
pub struct TTSModel<R> {
    ident: TTSIdent,
    resources: R,
}

impl<R> TTSModel<R> {
    /// The identifier and the resources of the model.
    pub closed spec fn view(&self) -> (Seq<char>, R) {
        (self.ident@, self.resources)
    }

    /// The identifier the model was loaded under.
    pub fn ident(&self) -> (r: &TTSIdent)
        ensures
            r@ == self.view().0,
    {
        &self.ident
    }

    /// The resources of the model.
    pub fn resources(&self) -> (r: &R)
        ensures
            *r == self.view().1,
    {
        &self.resources
    }
}

/// The identifiers of a sequence of registry entries, in order.
pub open spec fn idents_of<R>(entries: Seq<(Seq<char>, R)>) -> Seq<Seq<char>> {
    entries.map_values(|e: (Seq<char>, R)| e.0)
}

/// What `load` of `id` does to the entries, where `ok` says whether it
/// returned `Ok`: nothing where `id` was already there (and the call
/// succeeds); otherwise one entry for `id` at the end on success, and nothing
/// on failure.
pub open spec fn load_effect<R>(
    before: Seq<(Seq<char>, R)>,
    after: Seq<(Seq<char>, R)>,
    id: Seq<char>,
    ok: bool,
) -> bool {
    if idents_of(before).contains(id) {
        ok && after == before
    } else if ok {
        after == before.push((id, after.last().1))
    } else {
        after == before
    }
}

/// The loaded voice models, in the order they were loaded, at most one per
/// identifier, beside the engine `E` that every model shares (tokenizer,
/// encoder, analyzer).
pub struct TTSModelHolder<E, R> {
    engine: E,
    models: Vec<TTSModel<R>>,
}

impl<E, R> TTSModelHolder<E, R> {
    /// The entries, as (identifier, resources), in load order.
    pub closed spec fn entries(&self) -> Seq<(Seq<char>, R)> {
        self.models@.map_values(|m: TTSModel<R>| m.view())
    }

    /// The shared engine.
    pub closed spec fn engine_view(&self) -> E {
        self.engine
    }

    /// The identifiers of the loaded models, in load order.
    pub open spec fn ids(&self) -> Seq<Seq<char>> {
        idents_of(self.entries())
    }

    /// No identifier is loaded twice.
    pub open spec fn wf(&self) -> bool {
        self.ids().no_duplicates()
    }

    /// A registry with no model loaded, around `engine`.
    pub fn new(engine: E) -> (r: Self)
        ensures
            r.wf(),
            r.entries() == Seq::<(Seq<char>, R)>::empty(),
            r.engine_view() == engine,
    {
        let r = TTSModelHolder { engine, models: Vec::new() };
        assert(r.entries() =~= Seq::<(Seq<char>, R)>::empty());
        r
    }

    /// The shared engine.
    pub fn engine(&self) -> (r: &E)
        ensures
            *r == self.engine_view(),
    {
        &self.engine
    }

    /// The identifiers of the loaded models, in load order.
    pub fn models(&self) -> (r: Vec<String>)
        ensures
            r@.map_values(|s: String| s@) == self.ids(),
    {
        let mut r: Vec<String> = Vec::new();
        let mut i: usize = 0;
        while i < self.models.len()
            invariant
                i <= self.models@.len(),
                r@.map_values(|s: String| s@) =~= self.ids().subrange(0, i as int),
            decreases self.models@.len() - i,
        {
            let ghost prev = r@;
            let s = self.models[i].ident.to_string();
            r.push(s);
            assert(self.ids()[i as int] == self.models@[i as int].ident@);
            assert(r@.map_values(|s: String| s@) =~= prev.map_values(|s: String| s@).push(s@));
            assert(self.ids().subrange(0, i + 1) =~= self.ids().subrange(0, i as int).push(s@));
            i = i + 1;
        }
        assert(self.ids().subrange(0, i as int) =~= self.ids());
        r
    }

    /// The position of the model loaded under `ident`, if any.
    fn position(&self, ident: &TTSIdent) -> (r: Option<usize>)
        ensures
            match r {
                Some(i) => i < self.ids().len() && self.ids()[i as int] == ident@,
                None => !self.ids().contains(ident@),
            },
    {
        let mut i: usize = 0;
        while i < self.models.len()
            invariant
                i <= self.models@.len(),
                forall|k: int| 0 <= k < i ==> self.ids()[k] != ident@,
            decreases self.models@.len() - i,
        {
            if self.models[i].ident == *ident {
                return Some(i);
            }
            i = i + 1;
        }
        None
    }

    /// Whether a model is loaded under `ident`.
    pub fn contains(&self, ident: &TTSIdent) -> (r: bool)
        ensures
            r == self.ids().contains(ident@),
    {
        self.position(ident).is_some()
    }

    /// Loads a model under `ident`, its resources made by `build`.
    ///
    /// Where `ident` is already loaded nothing changes and `build` is not
    /// called: the model loaded first is kept. Otherwise the model is added at
    /// the end if `build` succeeds, and the registry is left as it was if
    /// `build` fails.
    pub fn load<F, X>(&mut self, ident: TTSIdent, build: F) -> (r: Result<(), X>)
        where
            F: FnOnce() -> Result<R, X>,
        requires
            old(self).wf(),
            call_requires(build, ()),
        ensures
            final(self).wf(),
            final(self).engine_view() == old(self).engine_view(),
            load_effect(old(self).entries(), final(self).entries(), ident@, r is Ok),
            !old(self).ids().contains(ident@) ==> match r {
                Ok(_) => call_ensures(build, (), Ok(final(self).entries().last().1)),
                Err(e) => call_ensures(build, (), Err(e)),
            },
    {
        if self.contains(&ident) {
            return Ok(());
        }
        match build() {
            Ok(resources) => {
                let ghost prev = self.entries();
                let ghost id = ident@;
                self.models.push(TTSModel { ident, resources });
                assert(self.entries() =~= prev.push((id, resources)));
                assert(self.ids() =~= idents_of(prev).push(id));
                Ok(())
            },
            Err(e) => Err(e),
        }
    }

    /// Unloads the model under `ident`. Returns whether one was loaded; only
    /// that entry is removed, and the others keep their order.
    pub fn unload(&mut self, ident: &TTSIdent) -> (r: bool)
        requires
            old(self).wf(),
        ensures
            final(self).wf(),
            final(self).engine_view() == old(self).engine_view(),
            r == old(self).ids().contains(ident@),
            !final(self).ids().contains(ident@),
            r ==> final(self).entries().len() == old(self).entries().len() - 1,
            r ==> exists|i: int|
                0 <= i < old(self).entries().len() && old(self).ids()[i] == ident@
                    && final(self).entries() == old(self).entries().remove(i),
            !r ==> final(self).entries() == old(self).entries(),
    {
        match self.position(ident) {
            Some(i) => {
                let ghost prev = self.entries();
                self.models.remove(i);
                assert(self.entries() =~= prev.remove(i as int));
                assert(self.ids() =~= idents_of(prev).remove(i as int));
                proof {
                    let old_ids = idents_of(prev);
                    assert forall|a: int, b: int|
                        0 <= a < b < self.ids().len() implies self.ids()[a] != self.ids()[b] by {
                        let a2 = if a < i { a } else { a + 1 };
                        let b2 = if b < i { b } else { b + 1 };
                        assert(self.ids()[a] == old_ids[a2]);
                        assert(self.ids()[b] == old_ids[b2]);
                    }
                    if self.ids().contains(ident@) {
                        let k = choose|k: int| 0 <= k < self.ids().len() && self.ids()[k] == ident@;
                        let k2 = if k < i { k } else { k + 1 };
                        assert(old_ids[k2] == ident@);
                    }
                }
                true
            },
            None => false,
        }
    }

    /// The model loaded under `ident`.
    pub fn find_model(&self, ident: &TTSIdent) -> (r: Result<&TTSModel<R>, Error>)
        ensures
            match r {
                Ok(m) => m.view().0 == ident@ && self.entries().contains(m.view()),
                Err(e) => !self.ids().contains(ident@) && match e {
                    Error::ModelNotFoundError(s) => s@ == ident@,
                    _ => false,
                },
            },
    {
        match self.position(ident) {
            Some(i) => {
                assert(self.entries()[i as int] == self.models@[i as int].view());
                Ok(&self.models[i])
            },
            None => Err(Error::ModelNotFoundError(ident.to_string())),
        }
    }
}


/// The row of a style table with `rows` rows that `style_id` selects: the
/// index itself when it lies in the table, otherwise `StyleIndexOutOfRange`.
pub fn select_style_row(rows: usize, style_id: i32) -> (r: Result<usize, Error>)
    ensures
        0 <= style_id < rows ==> r == Ok::<usize, Error>(style_id as usize),
        !(0 <= style_id < rows) ==> r == Err::<usize, Error>(
            Error::StyleIndexOutOfRange { style_id, rows },
        ),
{
    if style_id < 0 || style_id as usize >= rows {
        Err(Error::StyleIndexOutOfRange { style_id, rows })
    } else {
        Ok(style_id as usize)
    }
}

impl<E, R> TTSModelHolder<E, R> {
    /// The model to synthesize with under `ident`, once the aligned features
    /// are known to have one row per phoneme position.
    ///
    /// An identifier that is not loaded gives `ModelNotFoundError`, whatever
    /// the lengths; otherwise unequal lengths give `FeatureLengthMismatch`.
    pub fn synthesis_model(&self, ident: &TTSIdent, feature_rows: usize, phones: usize) -> (r:
        Result<&TTSModel<R>, Error>)
        ensures
            match r {
                Ok(m) => {
                    &&& m.view().0 == ident@
                    &&& self.entries().contains(m.view())
                    &&& feature_rows == phones
                },
                Err(Error::ModelNotFoundError(s)) => !self.ids().contains(ident@) && s@ == ident@,
                Err(e) => {
                    &&& self.ids().contains(ident@)
                    &&& feature_rows != phones
                    &&& e == Error::FeatureLengthMismatch { feature_rows, phones }
                },
            },
    {
        let m = self.find_model(ident)?;
        if feature_rows != phones {
            proof {
                let k = choose|k: int| 0 <= k < self.entries().len() && self.entries()[k] == m.view();
                assert(self.ids()[k] == ident@);
            }
            return Err(Error::FeatureLengthMismatch { feature_rows, phones });
        }
        Ok(m)
    }
}

/// After a successful `load` of `id`, and after any second `load` of `id`,
/// `id` is listed exactly once, and the second load keeps the entry of the first.
pub proof fn lemma_load_twice_lists_once<R>(
    before: Seq<(Seq<char>, R)>,
    first: Seq<(Seq<char>, R)>,
    second: Seq<(Seq<char>, R)>,
    id: Seq<char>,
    second_ok: bool,
)
    requires
        idents_of(before).no_duplicates(),
        load_effect(before, first, id, true),
        load_effect(first, second, id, second_ok),
    ensures
        second_ok,
        second == first,
        exists|i: int|
            0 <= i < second.len() && (#[trigger] idents_of(second)[i]) == id && forall|j: int|
                0 <= j < second.len() && idents_of(second)[j] == id ==> j == i,
{
    if idents_of(before).contains(id) {
        let k = choose|k: int| 0 <= k < before.len() && idents_of(before)[k] == id;
        assert(idents_of(second)[k] == id);
    } else {
        let n = before.len() as int;
        assert(idents_of(first) =~= idents_of(before).push(id));
        assert(idents_of(first)[n] == id);
        assert(idents_of(first).contains(id));
        assert(idents_of(second)[n] == id);
        assert forall|j: int| 0 <= j < second.len() && idents_of(second)[j] == id implies j == n by {
            if j < n {
                assert(idents_of(before)[j] == id);
            }
        }
    }
}

} // verus!
