//! Scenes: many data sets by their names.

use crate::area::AreaDefinition;
use crate::dataset::Dataset;
use crate::error::{fails_with, Result};
use crate::resampler::Resampler;
use crate::text::same_text;
use vstd::prelude::*;

verus! {

/// Data sets in the order of their names being given first; each name stands once.
#[derive(Debug)]
pub struct Scene {
    datasets: Vec<Dataset>,
}

/// The names of data sets.
pub open spec fn names_of(datasets: Seq<Dataset>) -> Seq<Seq<char>> {
    Seq::new(datasets.len(), |i: int| datasets[i]@.name)
}

/// Where a name stands, or the number of names.
pub open spec fn place_of(names: Seq<Seq<char>>, name: Seq<char>) -> int
    decreases names.len(),
{
    if names.len() == 0 {
        0
    } else if names[0] == name {
        0
    } else {
        1 + place_of(names.drop_first(), name)
    }
}

proof fn lemma_place(names: Seq<Seq<char>>, name: Seq<char>)
    ensures
        0 <= place_of(names, name) <= names.len(),
        place_of(names, name) < names.len() ==> names[place_of(names, name)] == name,
        forall|i: int| 0 <= i < place_of(names, name) ==> #[trigger] names[i] != name,
    decreases names.len(),
{
    if names.len() > 0 && names[0] != name {
        lemma_place(names.drop_first(), name);
        assert forall|i: int| 0 <= i < place_of(names, name) implies #[trigger] names[i] != name by {
            if i > 0 {
                assert(names[i] == names.drop_first()[i - 1]);
            }
        }
    }
}

/// Data sets with one more, in place of that with the same name.
pub open spec fn with_dataset(datasets: Seq<Dataset>, dataset: Dataset) -> Seq<Dataset> {
    let i = place_of(names_of(datasets), dataset@.name);
    if i < datasets.len() {
        datasets.update(i, dataset)
    } else {
        datasets.push(dataset)
    }
}

/// Data sets with others, one after the other.
pub open spec fn with_datasets(datasets: Seq<Dataset>, others: Seq<Dataset>) -> Seq<Dataset>
    decreases others.len(),
{
    if others.len() == 0 {
        datasets
    } else {
        with_dataset(with_datasets(datasets, others.drop_last()), others.last())
    }
}

/// Whether `outs` are what a resampler makes of the first of some data sets.
pub open spec fn all_resampled<R: Resampler>(
    resampler: &R,
    datasets: Seq<Dataset>,
    destination: &AreaDefinition,
    outs: Seq<Dataset>,
) -> bool {
    &&& outs.len() <= datasets.len()
    &&& forall|i: int|
        0 <= i < outs.len() ==> call_ensures(
            R::resample,
            (resampler, &datasets[i], destination),
            Ok::<Dataset, crate::error::RustySatError>(#[trigger] outs[i]),
        )
}

/// As `all_resampled`, for data sets that are given away.
pub open spec fn all_resampled_owned<R: Resampler>(
    resampler: &R,
    datasets: Seq<Dataset>,
    destination: &AreaDefinition,
    outs: Seq<Dataset>,
) -> bool {
    &&& outs.len() <= datasets.len()
    &&& forall|i: int|
        0 <= i < outs.len() ==> call_ensures(
            R::resample_owned,
            (resampler, datasets[i], destination),
            Ok::<Dataset, crate::error::RustySatError>(#[trigger] outs[i]),
        )
}

/// Whether `r` is the scene of all data sets on the destination, or the error of the
/// first that is refused; `outs` are the data sets before it.
pub open spec fn scene_resampled<R: Resampler>(
    r: Result<Scene>,
    resampler: &R,
    datasets: Seq<Dataset>,
    destination: &AreaDefinition,
    outs: Seq<Dataset>,
) -> bool {
    &&& all_resampled(resampler, datasets, destination, outs)
    &&& if outs.len() == datasets.len() {
        r is Ok && r->Ok_0@ == with_datasets(Seq::empty(), outs)
    } else {
        exists|out: Result<Dataset>| #[trigger]
            call_ensures(
                R::resample,
                (resampler, &datasets[outs.len() as int], destination),
                out,
            ) && out is Err && fails_with(r, out->Err_0@)
    }
}

/// As `scene_resampled`, for a scene that is given away.
pub open spec fn scene_resampled_owned<R: Resampler>(
    r: Result<Scene>,
    resampler: &R,
    datasets: Seq<Dataset>,
    destination: &AreaDefinition,
    outs: Seq<Dataset>,
) -> bool {
    &&& all_resampled_owned(resampler, datasets, destination, outs)
    &&& if outs.len() == datasets.len() {
        r is Ok && r->Ok_0@ == with_datasets(Seq::empty(), outs)
    } else {
        exists|out: Result<Dataset>| #[trigger]
            call_ensures(
                R::resample_owned,
                (resampler, datasets[outs.len() as int], destination),
                out,
            ) && out is Err && fails_with(r, out->Err_0@)
    }
}

impl View for Scene {
    type V = Seq<Dataset>;

    closed spec fn view(&self) -> Seq<Dataset> {
        self.datasets@
    }
}

impl Scene {
    /// Each name stands once.
    #[verifier::type_invariant]
    pub open spec fn inv(&self) -> bool {
        names_of(self@).no_duplicates()
    }

    pub fn new() -> (r: Self)
        ensures
            r@ == Seq::<Dataset>::empty(),
    {
        Scene { datasets: Vec::new() }
    }

    pub fn len(&self) -> (r: usize)
        ensures
            r == self@.len(),
    {
        self.datasets.len()
    }

    pub fn is_empty(&self) -> (r: bool)
        ensures
            r == (self@.len() == 0),
    {
        self.datasets.len() == 0
    }

    fn find(&self, name: &str) -> (r: usize)
        ensures
            r == place_of(names_of(self@), name@),
            r <= self@.len(),
    {
        let ghost names = names_of(self@);
        assert(names.skip(0) =~= names);
        let mut i: usize = 0;
        while i < self.datasets.len()
            invariant
                i <= self.datasets@.len(),
                names == names_of(self@),
                place_of(names, name@) == i + place_of(names.skip(i as int), name@),
            decreases self.datasets@.len() - i,
        {
            proof {
                let rest = names.skip(i as int);
                assert(rest[0] == names[i as int]);
                assert(rest.drop_first() =~= names.skip(i + 1));
            }
            if same_text(self.datasets[i].id().name(), name) {
                return i;
            }
            i = i + 1;
        }
        assert(names.skip(i as int).len() == 0);
        i
    }

    /// The data set with a name.
    pub fn get(&self, name: &str) -> (r: Option<&Dataset>)
        ensures
            r is Some == names_of(self@).contains(name@),
            r is Some ==> *r->Some_0 == self@[place_of(names_of(self@), name@)]
                && r->Some_0@.name == name@,
    {
        let i: usize = self.find(name);
        proof {
            lemma_place(names_of(self@), name@);
        }
        if i < self.datasets.len() {
            assert(names_of(self@)[i as int] == name@);
            Some(&self.datasets[i])
        } else {
            None
        }
    }

    /// Gives the scene a data set, in place of that with the same name.
    pub fn insert_dataset(&mut self, dataset: Dataset)
        ensures
            final(self)@ == with_dataset(old(self)@, dataset),
    {
        proof {
            use_type_invariant(&*self);
            lemma_place(names_of(self@), dataset@.name);
        }
        let ghost before = self@;
        let i: usize = self.find(dataset.id().name());
        let mut datasets: Vec<Dataset> = Vec::new();
        std::mem::swap(&mut datasets, &mut self.datasets);
        if i < datasets.len() {
            datasets.set(i, dataset);
            proof {
                assert(names_of(datasets@) =~= names_of(before));
            }
        } else {
            datasets.push(dataset);
            proof {
                assert forall|a: int, b: int|
                    0 <= a < datasets@.len() && 0 <= b < datasets@.len() && a != b implies names_of(
                    datasets@,
                )[a] != names_of(datasets@)[b] by {
                    if a < before.len() {
                        assert(names_of(datasets@)[a] == names_of(before)[a]);
                    }
                    if b < before.len() {
                        assert(names_of(datasets@)[b] == names_of(before)[b]);
                    }
                }
            }
        }
        self.datasets = datasets;
    }

    /// All data sets on the destination.
    pub fn resample_with<R: Resampler>(&self, resampler: &R, destination: &AreaDefinition) -> (r:
        Result<Scene>)
        ensures
            exists|outs: Seq<Dataset>| #[trigger]
                scene_resampled(r, resampler, self@, destination, outs),
    {
        let ghost all = self@;
        let ghost mut outs: Seq<Dataset> = Seq::empty();
        let mut scene = Scene::new();
        let n: usize = self.datasets.len();
        let mut i: usize = 0;
        while i < n
            invariant
                i <= n,
                n == all.len(),
                all == self@,
                outs.len() == i,
                all_resampled(resampler, all, destination, outs),
                scene@ == with_datasets(Seq::empty(), outs),
            decreases n - i,
        {
            let out = resampler.resample(&self.datasets[i], destination);
            assert(call_ensures(R::resample, (resampler, &all[i as int], destination), out));
            match out {
                Ok(dataset) => {
                    proof {
                        let before = outs;
                        outs = outs.push(dataset);
                        assert(outs.drop_last() =~= before);
                    }
                    scene.insert_dataset(dataset);
                },
                Err(e) => {
                    let r = Err(e);
                    proof {
                        assert(scene_resampled(r, resampler, self@, destination, outs));
                    }
                    return r;
                },
            }
            i = i + 1;
        }
        let r = Ok(scene);
        proof {
            assert(scene_resampled(r, resampler, self@, destination, outs));
        }
        r
    }

    /// All data sets of a scene that is given away on the destination.
    pub fn resample_with_owned<R: Resampler>(self, resampler: &R, destination: &AreaDefinition) -> (r:
        Result<Scene>)
        ensures
            exists|outs: Seq<Dataset>| #[trigger]
                scene_resampled_owned(r, resampler, self@, destination, outs),
    {
        let ghost all = self@;
        let ghost mut outs: Seq<Dataset> = Seq::empty();
        let mut scene = Scene::new();
        let mut rest = self.datasets;
        let n: usize = rest.len();
        let mut i: usize = 0;
        while i < n
            invariant
                i <= n,
                n == all.len(),
                all == self@,
                rest@ == all.skip(i as int),
                outs.len() == i,
                all_resampled_owned(resampler, all, destination, outs),
                scene@ == with_datasets(Seq::empty(), outs),
            decreases n - i,
        {
            let dataset = rest.remove(0);
            assert(dataset == all[i as int]);
            assert(rest@ =~= all.skip(i + 1));
            let out = resampler.resample_owned(dataset, destination);
            assert(call_ensures(R::resample_owned, (resampler, all[i as int], destination), out));
            match out {
                Ok(dataset) => {
                    proof {
                        let before = outs;
                        outs = outs.push(dataset);
                        assert(outs.drop_last() =~= before);
                    }
                    scene.insert_dataset(dataset);
                },
                Err(e) => {
                    let r = Err(e);
                    proof {
                        assert(scene_resampled_owned(r, resampler, all, destination, outs));
                    }
                    return r;
                },
            }
            i = i + 1;
        }
        let r = Ok(scene);
        proof {
            assert(scene_resampled_owned(r, resampler, all, destination, outs));
        }
        r
    }
}

/// A data set that is given to a scene is found under its name.
pub proof fn lemma_inserted_is_found(datasets: Seq<Dataset>, dataset: Dataset)
    ensures
        ({
            let after = with_dataset(datasets, dataset);
            let i = place_of(names_of(after), dataset@.name);
            i < after.len() && after[i] == dataset
        }),
{
    let names = names_of(datasets);
    let name = dataset@.name;
    lemma_place(names, name);
    let after = with_dataset(datasets, dataset);
    lemma_place(names_of(after), name);
    let p = place_of(names, name);
    assert(names_of(after)[p] == name);
    assert forall|i: int| 0 <= i < p implies #[trigger] names_of(after)[i] != name by {
        assert(names_of(after)[i] == names[i]);
    }
    let q = place_of(names_of(after), name);
    if q < p {
        assert(names_of(after)[q] == name);
    }
    if p < q {
        assert(names_of(after)[p] != name);
    }
}

/// A data set that is put into a scene leaves the others in their places, and takes the place of
/// that with its name or the last one.
pub proof fn lemma_inserted_leaves_others(datasets: Seq<Dataset>, dataset: Dataset, i: int)
    requires
        0 <= i < datasets.len(),
    ensures
        ({
            let after = with_dataset(datasets, dataset);
            let known = exists|k: int|
                0 <= k < datasets.len() && (#[trigger] datasets[k])@.name == dataset@.name;
            &&& after.len() == if known {
                datasets.len()
            } else {
                datasets.len() + 1
            }
            &&& datasets[i]@.name != dataset@.name ==> after[i] == datasets[i]
            &&& !known ==> after.last() == dataset
            &&& datasets[i]@.name == dataset@.name && (forall|k: int|
                0 <= k < i ==> (#[trigger] datasets[k])@.name != dataset@.name) ==> after[i]
                == dataset
        }),
{
    let names = names_of(datasets);
    lemma_place(names, dataset@.name);
    let p = place_of(names, dataset@.name);
    if p < datasets.len() {
        assert(names[p] == datasets[p]@.name);
    }
    if exists|k: int| 0 <= k < datasets.len() && (#[trigger] datasets[k])@.name == dataset@.name {
        let k = choose|k: int|
            0 <= k < datasets.len() && (#[trigger] datasets[k])@.name == dataset@.name;
        assert(names[k] == dataset@.name);
    }
    assert(names[i] == datasets[i]@.name);
}

} // verus!
