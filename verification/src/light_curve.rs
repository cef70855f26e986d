//! Observations and their grouping by band.
use crate::binary64::Binary64;
use crate::text::same_text;
use vstd::prelude::*;

verus! {

/// One photometric observation.
#[derive(Debug)]
pub struct Obs {
    /// Julian date, in days.
    pub time: Binary64,
    pub flux: Binary64,
    pub flux_err: Binary64,
    /// Short band name.
    pub band: String,
}

/// What an [`Obs`] holds.
pub struct Seen {
    pub time: Binary64,
    pub flux: Binary64,
    pub flux_err: Binary64,
    pub band: Seq<char>,
}

impl View for Obs {
    type V = Seen;

    open spec fn view(&self) -> Seen {
        Seen { time: self.time, flux: self.flux, flux_err: self.flux_err, band: self.band@ }
    }
}

impl Clone for Obs {
    fn clone(&self) -> (r: Obs)
        ensures
            r@ == self@,
    {
        Obs {
            time: self.time,
            flux: self.flux,
            flux_err: self.flux_err,
            band: self.band.clone(),
        }
    }
}

/// What observations hold.
pub open spec fn all_seen(obs: Seq<Obs>) -> Seq<Seen> {
    obs.map_values(|o: Obs| o@)
}

/// Flux-space time series for one photometric band.
#[derive(Debug)]
pub struct BandData {
    pub times: Vec<Binary64>,
    pub fluxes: Vec<Binary64>,
    pub flux_errs: Vec<Binary64>,
}

/// What a [`BandData`] holds.
#[verifier::ext_equal]
pub struct Series {
    pub times: Seq<Binary64>,
    pub fluxes: Seq<Binary64>,
    pub flux_errs: Seq<Binary64>,
}

impl View for BandData {
    type V = Series;

    open spec fn view(&self) -> Series {
        Series { times: self.times@, fluxes: self.fluxes@, flux_errs: self.flux_errs@ }
    }
}

impl Clone for BandData {
    fn clone(&self) -> (r: BandData)
        ensures
            r@ == self@,
    {
        let r: BandData = BandData {
            times: self.times.clone(),
            fluxes: self.fluxes.clone(),
            flux_errs: self.flux_errs.clone(),
        };
        assert(r@ =~= self@);
        r
    }
}

impl Default for BandData {
    fn default() -> (r: BandData)
        ensures
            r@ == (Series { times: seq![], fluxes: seq![], flux_errs: seq![] }),
    {
        BandData::new()
    }
}

impl BandData {
    /// A band without observations.
    pub fn new() -> (r: BandData)
        ensures
            r@ == (Series { times: seq![], fluxes: seq![], flux_errs: seq![] }),
    {
        let r = BandData { times: Vec::new(), fluxes: Vec::new(), flux_errs: Vec::new() };
        assert(r@ =~= (Series { times: seq![], fluxes: seq![], flux_errs: seq![] }));
        r
    }

    /// Appends an observation.
    fn record(&mut self, o: &Obs)
        ensures
            final(self)@ == old(self)@.recorded(o@),
    {
        self.times.push(o.time);
        self.fluxes.push(o.flux);
        self.flux_errs.push(o.flux_err);
    }
}

impl Series {
    /// The series with an observation appended.
    pub open spec fn recorded(self, o: Seen) -> Series {
        Series {
            times: self.times.push(o.time),
            fluxes: self.fluxes.push(o.flux),
            flux_errs: self.flux_errs.push(o.flux_err),
        }
    }

    /// The series of a row of observations.
    pub open spec fn of(obs: Seq<Seen>) -> Series {
        Series {
            times: obs.map_values(|o: Seen| o.time),
            fluxes: obs.map_values(|o: Seen| o.flux),
            flux_errs: obs.map_values(|o: Seen| o.flux_err),
        }
    }
}

/// Bands by name. Each name stands at most once.
#[derive(Debug)]
pub struct BandMap {
    entries: Vec<(String, BandData)>,
}

/// Where a name stands in a list of entries, if it does.
spec fn place(entries: Seq<(String, BandData)>, name: Seq<char>) -> int {
    choose|i: int| 0 <= i < entries.len() && (#[trigger] entries[i]).0@ == name
}

spec fn holds(entries: Seq<(String, BandData)>, name: Seq<char>) -> bool {
    exists|i: int| 0 <= i < entries.len() && (#[trigger] entries[i]).0@ == name
}

spec fn distinct(entries: Seq<(String, BandData)>) -> bool {
    forall|i: int, j: int|
        0 <= i < j < entries.len() ==> (#[trigger] entries[i]).0@ != (#[trigger] entries[j]).0@
}

spec fn listed(entries: Seq<(String, BandData)>) -> Map<Seq<char>, Series> {
    Map::new(
        |name: Seq<char>| holds(entries, name),
        |name: Seq<char>| entries[place(entries, name)].1@,
    )
}

impl View for BandMap {
    type V = Map<Seq<char>, Series>;

    closed spec fn view(&self) -> Map<Seq<char>, Series> {
        listed(self.entries@)
    }
}

/// Changing one entry's series changes the map at its name.
proof fn lemma_replaced(
    before: Seq<(String, BandData)>,
    after: Seq<(String, BandData)>,
    at: int,
)
    requires
        distinct(before),
        0 <= at < before.len(),
        before.len() == after.len(),
        after[at].0@ == before[at].0@,
        forall|i: int| 0 <= i < before.len() && i != at ==> after[i] == before[i],
    ensures
        distinct(after),
        listed(after) == listed(before).insert(before[at].0@, after[at].1@),
{
    let name = before[at].0@;
    assert forall|i: int| 0 <= i < after.len() implies (#[trigger] after[i]).0@ == before[i].0@ by {
    }
    assert forall|n: Seq<char>| #[trigger] holds(after, n) == holds(before, n) by {
        if holds(before, n) {
            let i = place(before, n);
            assert(after[i].0@ == n);
        }
        if holds(after, n) {
            let i = place(after, n);
            assert(before[i].0@ == n);
        }
    }
    assert forall|n: Seq<char>| holds(before, n) implies place(after, n) == place(before, n) by {
        let i = place(before, n);
        assert(after[i].0@ == n);
        let j = place(after, n);
        assert(after[j].0@ == before[j].0@);
    }
    assert(holds(before, name)) by {
        assert(before[at].0@ == name);
    }
    let j = place(before, name);
    assert(j == at);
    assert(listed(after) =~= listed(before).insert(name, after[at].1@));
}

/// A new entry puts its name into the map.
proof fn lemma_appended(entries: Seq<(String, BandData)>, entry: (String, BandData))
    requires
        distinct(entries),
        !holds(entries, entry.0@),
    ensures
        distinct(entries.push(entry)),
        listed(entries.push(entry)) == listed(entries).insert(entry.0@, entry.1@),
{
    let after = entries.push(entry);
    assert(after[entries.len() as int].0@ == entry.0@);
    assert(forall|i: int| 0 <= i < entries.len() ==> #[trigger] after[i] == entries[i]);
    assert forall|n: Seq<char>|
        n != entry.0@ implies #[trigger] holds(after, n) == holds(entries, n) by {
        if holds(entries, n) {
            let i = place(entries, n);
            assert(after[i].0@ == n);
        }
        if holds(after, n) {
            let i = place(after, n);
            assert(entries[i].0@ == n);
        }
    }
    assert forall|n: Seq<char>| holds(entries, n) implies place(after, n) == place(entries, n) by {
        let i = place(entries, n);
        assert(after[i].0@ == n);
        let j = place(after, n);
        assert(after[j].0@ == n);
        if j < entries.len() {
            assert(entries[j].0@ == n);
        }
    }
    assert(holds(after, entry.0@));
    assert(listed(after) =~= listed(entries).insert(entry.0@, entry.1@));
}

impl BandMap {
    #[verifier::type_invariant]
    spec fn consistent(&self) -> bool {
        distinct(self.entries@)
    }

    /// A map without bands.
    pub fn new() -> (r: BandMap)
        ensures
            r@ == Map::<Seq<char>, Series>::empty(),
    {
        let r = BandMap { entries: Vec::new() };
        assert(r@ =~= Map::<Seq<char>, Series>::empty());
        r
    }

    /// Whether there is no band at all.
    pub fn is_empty(&self) -> (r: bool)
        ensures
            r == (self@ == Map::<Seq<char>, Series>::empty()),
    {
        proof {
            if self.entries.len() > 0 {
                assert(holds(self.entries@, self.entries@[0].0@));
                assert(self@.dom().contains(self.entries@[0].0@));
            } else {
                assert(self@ =~= Map::<Seq<char>, Series>::empty());
            }
        }
        self.entries.len() == 0
    }

    /// Where a name stands.
    fn find(entries: &Vec<(String, BandData)>, name: &str) -> (r: Option<usize>)
        ensures
            match r {
                Some(i) => i < entries.len() && entries@[i as int].0@ == name@,
                None => !holds(entries@, name@),
            },
    {
        let mut i: usize = 0;
        while i < entries.len()
            invariant
                i <= entries.len(),
                forall|j: int| 0 <= j < i ==> (#[trigger] entries@[j]).0@ != name@,
            decreases entries.len() - i,
        {
            if same_text(entries[i].0.as_str(), name) {
                return Some(i);
            }
            i += 1;
        }
        None
    }

    /// The band of that name.
    pub fn get(&self, name: &str) -> (r: Option<&BandData>)
        ensures
            match r {
                Some(data) => self@.dom().contains(name@) && data@ == self@[name@],
                None => !self@.dom().contains(name@),
            },
    {
        proof {
            use_type_invariant(self);
        }
        match Self::find(&self.entries, name) {
            Some(i) => {
                proof {
                    assert(holds(self.entries@, name@));
                    assert(place(self.entries@, name@) == i);
                }
                Some(&self.entries[i].1)
            },
            None => None,
        }
    }

    /// Puts a band under a name, in place of what stood there.
    pub fn insert(&mut self, name: String, data: BandData)
        ensures
            final(self)@ == old(self)@.insert(name@, data@),
    {
        proof {
            use_type_invariant(&*self);
        }
        let mut entries: Vec<(String, BandData)> = Vec::new();
        std::mem::swap(&mut entries, &mut self.entries);
        let ghost before = entries@;
        match Self::find(&entries, name.as_str()) {
            Some(i) => {
                entries.set(i, (name, data));
                proof {
                    lemma_replaced(before, entries@, i as int);
                }
            },
            None => {
                proof {
                    lemma_appended(before, (name, data));
                }
                entries.push((name, data));
            },
        }
        self.entries = entries;
    }

    /// Appends an observation to its band.
    fn record(&mut self, o: &Obs)
        ensures
            final(self)@ == old(self)@.insert(
                o.band@,
                (if old(self)@.dom().contains(o.band@) {
                    old(self)@[o.band@]
                } else {
                    (Series { times: seq![], fluxes: seq![], flux_errs: seq![] })
                }).recorded(o@),
            ),
    {
        proof {
            use_type_invariant(&*self);
        }
        let mut entries: Vec<(String, BandData)> = Vec::new();
        std::mem::swap(&mut entries, &mut self.entries);
        let ghost before = entries@;
        match Self::find(&entries, o.band.as_str()) {
            Some(i) => {
                proof {
                    assert(holds(before, o.band@));
                    assert(place(before, o.band@) == i);
                }
                entries[i].1.record(o);
                proof {
                    lemma_replaced(before, entries@, i as int);
                }
            },
            None => {
                let mut data: BandData = BandData::new();
                data.record(o);
                let name: String = o.band.clone();
                proof {
                    lemma_appended(before, (name, data));
                }
                entries.push((name, data));
            },
        }
        self.entries = entries;
    }
}

/// The observations of one band, in order.
pub open spec fn in_band(obs: Seq<Seen>, name: Seq<char>) -> Seq<Seen> {
    obs.filter(|o: Seen| o.band == name)
}

/// Some observation is of that band.
pub open spec fn has_band(obs: Seq<Seen>, name: Seq<char>) -> bool {
    exists|i: int| 0 <= i < obs.len() && (#[trigger] obs[i]).band == name
}

/// Observations by band: the bands that occur, each with its observations in
/// their order.
pub open spec fn grouped(obs: Seq<Seen>) -> Map<Seq<char>, Series> {
    Map::new(
        |name: Seq<char>| has_band(obs, name),
        |name: Seq<char>| Series::of(in_band(obs, name)),
    )
}

/// One observation more.
pub proof fn lemma_grouped_push(obs: Seq<Seen>, o: Seen)
    ensures
        grouped(obs.push(o)) == grouped(obs).insert(
            o.band,
            (if grouped(obs).dom().contains(o.band) {
                grouped(obs)[o.band]
            } else {
                (Series { times: seq![], fluxes: seq![], flux_errs: seq![] })
            }).recorded(o),
        ),
{
    reveal(Seq::filter);
    let more = obs.push(o);
    assert(more.drop_last() =~= obs);
    assert(more[obs.len() as int].band == o.band);
    assert forall|name: Seq<char>|
        name != o.band implies #[trigger] has_band(more, name) == has_band(obs, name) by {
        if has_band(obs, name) {
            let i = choose|i: int| 0 <= i < obs.len() && (#[trigger] obs[i]).band == name;
            assert(more[i].band == name);
        }
        if has_band(more, name) {
            let i = choose|i: int| 0 <= i < more.len() && (#[trigger] more[i]).band == name;
            assert(obs[i].band == name);
        }
    }
    assert forall|name: Seq<char>| name != o.band implies in_band(more, name) == in_band(obs, name) by {
    }
    let name = o.band;
    assert(in_band(more, name) == in_band(obs, name).push(o));
    assert(Series::of(in_band(obs, name).push(o)) =~= Series::of(in_band(obs, name)).recorded(o));
    if !has_band(obs, name) {
        lemma_no_band(obs, name);
        assert(Series::of(in_band(obs, name)) =~= (Series {
            times: seq![],
            fluxes: seq![],
            flux_errs: seq![],
        }));
    }
    assert(has_band(more, name));
    assert(grouped(more) =~= grouped(obs).insert(
        name,
        Series::of(in_band(obs, name)).recorded(o),
    ));
}

/// A band that does not occur has no observations.
proof fn lemma_no_band(obs: Seq<Seen>, name: Seq<char>)
    requires
        !has_band(obs, name),
    ensures
        in_band(obs, name).len() == 0,
    decreases obs.len(),
{
    reveal(Seq::filter);
    if obs.len() > 0 {
        assert(obs.last().band != name);
        assert forall|i: int| 0 <= i < obs.drop_last().len() implies (
        #[trigger] obs.drop_last()[i]).band != name by {
            assert(obs[i].band != name);
        }
        lemma_no_band(obs.drop_last(), name);
    }
}

/// Groups observations into bands.
pub fn obs_to_band_map(obs: &Vec<Obs>) -> (r: BandMap)
    ensures
        r@ == grouped(all_seen(obs@)),
{
    let ghost all = all_seen(obs@);
    let mut map: BandMap = BandMap::new();
    let mut i: usize = 0;
    assert(all.subrange(0, 0) =~= seq![]);
    assert(map@ =~= grouped(all.subrange(0, 0)));
    while i < obs.len()
        invariant
            i <= obs.len(),
            all == all_seen(obs@),
            map@ == grouped(all.subrange(0, i as int)),
        decreases obs.len() - i,
    {
        proof {
            lemma_grouped_push(all.subrange(0, i as int), all[i as int]);
            assert(all.subrange(0, i + 1) =~= all.subrange(0, i as int).push(all[i as int]));
        }
        map.record(&obs[i]);
        i += 1;
    }
    assert(all.subrange(0, obs.len() as int) =~= all);
    map
}

/// Observations make at least one band.
pub proof fn law_observations_make_bands(obs: Seq<Seen>)
    requires
        obs.len() > 0,
    ensures
        grouped(obs) != Map::<Seq<char>, Series>::empty(),
{
    assert(has_band(obs, obs[0].band));
    assert(grouped(obs).dom().contains(obs[0].band));
}

} // verus!
