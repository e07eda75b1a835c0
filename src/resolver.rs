//! Symbolication: maps an instruction pointer to its module and its source
//! locations, inner-most first, through the module's debug information.
use addr2line::Loader;
use rangemap::RangeMap;
use std::collections::HashMap;
use vstd::prelude::*;
use vstd::std_specs::hash::group_hash_axioms;

verus! {

broadcast use group_hash_axioms;

#[verifier::external_type_specification]
#[verifier::external_body]
pub struct ExLoader(Loader);

#[verifier::external_type_specification]
#[verifier::external_body]
#[verifier::reject_recursive_types(K)]
#[verifier::reject_recursive_types(V)]
pub struct ExRangeMap<K, V>(RangeMap<K, V>);

/// The start address of the module that covers each covered address.
pub uninterp spec fn ranges_held(m: RangeMap<u64, u64>) -> Map<u64, u64>;

/// The display form of a mangled symbol name.
pub uninterp spec fn demangled(raw: Seq<char>) -> Seq<char>;

/// Relies on `RangeMap::new`: a new map covers nothing.
#[verifier::external_body]
fn new_ranges() -> (r: RangeMap<u64, u64>)
    ensures
        ranges_held(r).dom() == Set::<u64>::empty(),
{
    RangeMap::new()
}

/// Relies on `RangeMap::insert`: afterwards each address of `[start, end)`
/// maps to `value` and the others are as before. It panics on an empty range.
#[verifier::external_body]
fn insert_range(m: &mut RangeMap<u64, u64>, start: u64, end: u64, value: u64)
    requires
        start < end,
    ensures
        forall|p: u64|
            #![trigger ranges_held(*final(m)).contains_key(p)]
            #![trigger ranges_held(*final(m))[p]]
            if start <= p < end {
                ranges_held(*final(m)).contains_key(p) && ranges_held(*final(m))[p] == value
            } else {
                (ranges_held(*final(m)).contains_key(p) <==> ranges_held(*old(m)).contains_key(p))
                    && ranges_held(*final(m))[p] == ranges_held(*old(m))[p]
            },
{
    m.insert(start..end, value)
}

/// Relies on `RangeMap::get`: the value of the range that covers `p`.
#[verifier::external_body]
fn range_at(m: &RangeMap<u64, u64>, p: u64) -> (r: Option<u64>)
    ensures
        r is Some <==> ranges_held(*m).contains_key(p),
        r is Some ==> r->0 == ranges_held(*m)[p],
{
    m.get(&p).copied()
}

/// Relies on `rustc_demangle::demangle`, displayed as a string.
#[verifier::external_body]
fn demangle_name(raw: &str) -> (r: String)
    ensures
        r@ == demangled(raw@),
{
    rustc_demangle::demangle(raw).to_string()
}

/// Relies on `Loader::new`, which reads the object file at `path`; what it
/// finds on disk decides the outcome.
#[verifier::external_body]
fn open_loader(path: &str) -> (r: Option<Loader>) {
    Loader::new(path).ok()
}

/// Relies on `Loader::find_frames` and its frame iterator: the frames at
/// `ip`, inner-most first, as the object file's debug information gives them.
#[verifier::external_body]
fn frames_at(loader: &Loader, ip: u64) -> (r: Option<Vec<RawFrame>>) {
    let mut iter = loader.find_frames(ip).ok()?;
    let mut frames = Vec::new();
    while let Some(f) = iter.next().ok()? {
        let function = f.function.and_then(|n| n.raw_name().ok().map(|c| c.to_string()));
        let (file, line) = match f.location {
            Some(l) => (l.file.map(|s| s.to_string()), l.line),
            None => (None, None),
        };
        frames.push(RawFrame { function, file, line });
    }
    Some(frames)
}

/// Relies on `Loader::find_symbol`: the symbol-table name covering `ip`.
#[verifier::external_body]
fn symbol_at(loader: &Loader, ip: u64) -> (r: Option<String>) {
    loader.find_symbol(ip).map(|s| s.to_string())
}

/// A frame as the debug information gives it: a mangled function name, and
/// where known the source file and line.
pub struct RawFrame {
    pub function: Option<String>,
    pub file: Option<String>,
    pub line: Option<u32>,
}

/// A loaded object file and the address range it occupies.
pub struct Module {
    pub id: usize,
    pub start_address: u64,
    pub end_address: u64,
    pub path: String,
}

impl Module {
    pub fn new(id: usize, path: String, start_address: u64, size: u64) -> (r: Self)
        requires
            start_address + size <= u64::MAX,
        ensures
            r.id == id,
            r.path == path,
            r.start_address == start_address,
            r.end_address == start_address + size,
    {
        Module { id, path, start_address, end_address: start_address + size }
    }

    /// The locations at `ip` in this module: the frames of its debug
    /// information, or where it has none, the symbol covering `ip`. What the
    /// object file holds decides which frames and symbol those are.
    pub fn lookup(&self, ip: u64, loader: &Loader) -> (r: Option<LookupResult>)
        ensures
            r is Some ==> r->0.wf(),
            exists|fs: Seq<RawFrame>, sym: Option<Seq<char>>|
                #[trigger] lookup_of(self.id, fs, sym) == result_view(r),
    {
        let frames = match frames_at(loader, ip) {
            Some(f) => f,
            None => {
                assert(lookup_of(self.id, Seq::empty(), None) == result_view(None));
                return None;
            },
        };
        let symbol = if frames.len() == 0 {
            symbol_at(loader, ip)
        } else {
            None
        };
        let r = lookup_result(self.id, &frames, symbol);
        assert(lookup_of(self.id, frames@, string_view(symbol)) == result_view(r));
        r
    }
}

/// The view of an optional string.
pub open spec fn string_view(s: Option<String>) -> Option<Seq<char>> {
    match s {
        Some(s) => Some(s@),
        None => None,
    }
}

/// The view of an optional lookup result.
pub open spec fn result_view(r: Option<LookupResult>) -> Option<(usize, Seq<LocationView>)> {
    match r {
        Some(res) => Some(res@),
        None => None,
    }
}

/// The result of module `id` whose debug information gives `frames` and,
/// where there are none, the symbol `symbol`: the locations of the frames
/// where each has a function name, else the one location of the symbol.
pub open spec fn lookup_of(id: usize, frames: Seq<RawFrame>, symbol: Option<Seq<char>>) -> Option<
    (usize, Seq<LocationView>),
> {
    if frames.len() > 0 {
        if forall|i: int| 0 <= i < frames.len() ==> (#[trigger] frames[i]).function is Some {
            Some((id, frames.map_values(|f: RawFrame| location_of(f))))
        } else {
            None
        }
    } else {
        match symbol {
            Some(s) => Some((id, seq![(demangled(s), None::<Seq<char>>, None::<u32>)])),
            None => None,
        }
    }
}

/// The result of module `id` from the frames its debug information gives
/// and, where it gives none, the symbol covering the address.
pub fn lookup_result(id: usize, frames: &Vec<RawFrame>, symbol: Option<String>) -> (r: Option<
    LookupResult,
>)
    ensures
        result_view(r) == lookup_of(id, frames@, string_view(symbol)),
        r is Some ==> r->0.wf(),
{
    if frames.len() > 0 {
        let locations = match locations_from_frames(frames) {
            Some(l) => l,
            None => {
                return None;
            },
        };
        assert forall|i: int| 0 <= i < locations@.len() implies (
        #[trigger] locations@[i].file_name is Some ==> locations@[i].line_number is Some) by {
            assert(locations@[i]@ == location_of(frames@[i]));
        }
        let r = LookupResult { module_id: id, locations };
        assert(r@.1 =~= frames@.map_values(|f: RawFrame| location_of(f)));
        Some(r)
    } else {
        match symbol {
            Some(sym) => {
                let mut locations = Vec::new();
                locations.push(Location::from_symbol(sym.as_str()));
                let r = LookupResult { module_id: id, locations };
                assert(r@.1 =~= seq![(demangled(sym@), None::<Seq<char>>, None::<u32>)]);
                Some(r)
            },
            None => None,
        }
    }
}

/// The view of a location: function name, file name and line.
pub type LocationView = (Seq<char>, Option<Seq<char>>, Option<u32>);

/// One source-level frame: a function, and where known its file and line.
pub struct Location {
    pub function_name: String,
    pub file_name: Option<String>,
    pub line_number: Option<u32>,
}

impl View for Location {
    type V = LocationView;

    open spec fn view(&self) -> LocationView {
        (
            self.function_name@,
            match self.file_name {
                Some(f) => Some(f@),
                None => None,
            },
            self.line_number,
        )
    }
}

/// The location that a raw frame stands for, with its name demangled; a line
/// goes with a file, 0 where the line is unknown.
pub open spec fn location_of(f: RawFrame) -> LocationView {
    match f.file {
        Some(file) => (
            demangled(f.function->0@),
            Some(file@),
            Some(
                match f.line {
                    Some(l) => l,
                    None => 0,
                },
            ),
        ),
        None => (demangled(f.function->0@), None, None),
    }
}

impl Location {
    /// A location of the symbol `raw` alone, without file or line.
    pub fn from_symbol(raw: &str) -> (r: Self)
        ensures
            r@ == (demangled(raw@), None::<Seq<char>>, None::<u32>),
    {
        Location { function_name: demangle_name(raw), file_name: None, line_number: None }
    }

    /// A location from a raw frame whose function name is known.
    pub fn from_frame(f: &RawFrame) -> (r: Self)
        requires
            f.function is Some,
        ensures
            r@ == location_of(*f),
    {
        let function_name = match &f.function {
            Some(name) => demangle_name(name.as_str()),
            None => String::new(),
        };
        match &f.file {
            Some(file) => {
                let line = match f.line {
                    Some(l) => l,
                    None => 0,
                };
                Location { function_name, file_name: Some(file.clone()), line_number: Some(line) }
            },
            None => Location { function_name, file_name: None, line_number: None },
        }
    }

    /// A copy equal by value.
    pub fn duplicate(&self) -> (r: Self)
        ensures
            r@ == self@,
    {
        let file_name = match &self.file_name {
            Some(f) => Some(f.clone()),
            None => None,
        };
        Location { function_name: self.function_name.clone(), file_name, line_number: self.line_number }
    }
}

/// The locations of the given frames, in order; `None` where a frame lacks
/// its function name.
pub fn locations_from_frames(frames: &Vec<RawFrame>) -> (r: Option<Vec<Location>>)
    ensures
        r is None <==> exists|i: int| 0 <= i < frames@.len() && frames@[i].function is None,
        r is Some ==> r->0@.len() == frames@.len() && forall|i: int|
            0 <= i < frames@.len() ==> #[trigger] r->0@[i]@ == location_of(frames@[i]),
{
    let mut locations: Vec<Location> = Vec::new();
    let mut i: usize = 0;
    while i < frames.len()
        invariant
            i <= frames@.len(),
            locations@.len() == i,
            forall|j: int| 0 <= j < i ==> frames@[j].function is Some,
            forall|j: int| 0 <= j < i ==> #[trigger] locations@[j]@ == location_of(frames@[j]),
        decreases frames@.len() - i,
    {
        if frames[i].function.is_none() {
            return None;
        }
        locations.push(Location::from_frame(&frames[i]));
        i = i + 1;
    }
    Some(locations)
}

/// The module and locations that an instruction pointer resolves to.
pub struct LookupResult {
    pub module_id: usize,
    pub locations: Vec<Location>,
}

impl View for LookupResult {
    type V = (usize, Seq<LocationView>);

    open spec fn view(&self) -> (usize, Seq<LocationView>) {
        (self.module_id, self.locations@.map_values(|l: Location| l@))
    }
}

impl LookupResult {
    /// At least one location, and a line wherever there is a file.
    pub open spec fn wf(&self) -> bool {
        &&& self.locations@.len() > 0
        &&& forall|i: int|
            0 <= i < self.locations@.len() ==> (#[trigger] self.locations@[i].file_name is Some
                ==> self.locations@[i].line_number is Some)
    }

    /// A copy equal by value.
    pub fn duplicate(&self) -> (r: Self)
        ensures
            r@ == self@,
            self.wf() ==> r.wf(),
    {
        let mut locations: Vec<Location> = Vec::new();
        let mut i: usize = 0;
        while i < self.locations.len()
            invariant
                i <= self.locations@.len(),
                locations@.len() == i,
                forall|j: int| 0 <= j < i ==> #[trigger] locations@[j]@ == self.locations@[j]@,
            decreases self.locations@.len() - i,
        {
            locations.push(self.locations[i].duplicate());
            i = i + 1;
        }
        let r = LookupResult { module_id: self.module_id, locations };
        assert(r@.1 =~= self@.1);
        proof {
            if self.wf() {
                assert forall|i: int| 0 <= i < r.locations@.len() implies (
            #[trigger] r.locations@[i].file_name is Some ==> r.locations@[i].line_number is Some)
                by {
                assert(r.locations@[i]@ == self.locations@[i]@);
                    assert(self.locations@[i].file_name is Some ==> self.locations@[i].line_number is Some);
                }
            }
        }
        r
    }
}

/// Registration of a module failed.
#[derive(Debug)]
pub enum Error {
    ModuleNotFound,
    InvalidRange,
}

/// The modules registered so far, their debug information, and the results
/// of earlier lookups.
pub struct Resolver {
    modules: RangeMap<u64, u64>,
    infos: HashMap<u64, Module>,
    cached: HashMap<u64, LookupResult>,
    loaders: HashMap<u64, Loader>,
}

impl Resolver {
    /// The result remembered for each instruction pointer looked up.
    pub closed spec fn cache(&self) -> Map<u64, (usize, Seq<LocationView>)> {
        self.cached@.map_values(|r: LookupResult| r@)
    }

    /// Whether some registered module covers `ip`.
    pub closed spec fn covers(&self, ip: u64) -> bool {
        ranges_held(self.modules).contains_key(ip)
    }

    /// The id of the module that covers `ip`.
    pub closed spec fn module_id_at(&self, ip: u64) -> usize {
        self.infos@[ranges_held(self.modules)[ip]].id
    }

    /// Every remembered result has a location, and a line with each file;
    /// each covered address leads to a registered module.
    pub closed spec fn wf(&self) -> bool {
        &&& forall|ip: u64| #[trigger] self.cached@.contains_key(ip) ==> self.cached@[ip].wf()
        &&& forall|ip: u64|
            #[trigger] ranges_held(self.modules).contains_key(ip) ==> self.infos@.contains_key(
                ranges_held(self.modules)[ip],
            ) && self.loaders@.contains_key(ranges_held(self.modules)[ip])
    }

    pub fn new() -> (r: Self)
        ensures
            r.wf(),
            r.cache() == Map::<u64, (usize, Seq<LocationView>)>::empty(),
            forall|ip: u64| !r.covers(ip),
    {
        let r = Resolver {
            modules: new_ranges(),
            infos: HashMap::new(),
            cached: HashMap::new(),
            loaders: HashMap::new(),
        };
        assert(r.cache() =~= Map::<u64, (usize, Seq<LocationView>)>::empty());
        r
    }

    /// Registers the module `id` found at `file_path`, occupying `size` bytes
    /// from `start_address`. A module of size 0 covers no address.
    pub fn add_module(&mut self, id: usize, file_path: &str, start_address: u64, size: u64) -> (r:
        Result<(), Error>)
        requires
            old(self).wf(),
        ensures
            final(self).wf(),
            final(self).cache() == old(self).cache(),
            start_address as int + size as int > u64::MAX ==> r == Err::<(), Error>(
                Error::InvalidRange,
            ),
            r is Ok ==> forall|ip: u64|
                start_address <= ip < start_address + size ==> #[trigger] final(self).covers(ip),
            r is Err ==> forall|ip: u64| #[trigger] final(self).covers(ip) == old(self).covers(ip),
            r is Ok ==> forall|ip: u64|
                start_address <= ip < start_address + size ==> #[trigger] final(self).module_id_at(ip)
                    == id,
            forall|ip: u64|
                !(start_address <= ip < start_address + size) ==> #[trigger] final(self).covers(ip)
                    == old(self).covers(ip),
    {
        if size > u64::MAX - start_address {
            return Err(Error::InvalidRange);
        }
        let module = Module::new(id, file_path.to_string(), start_address, size);
        let loader = match open_loader(file_path) {
            Some(l) => l,
            None => {
                return Err(Error::ModuleNotFound);
            },
        };
        self.loaders.insert(start_address, loader);
        if size > 0 {
            insert_range(&mut self.modules, module.start_address, module.end_address, start_address);
        }
        self.infos.insert(start_address, module);
        Ok(())
    }

    /// The module and locations of `ip`; a result once found is remembered
    /// and handed out again, equal by value, on every later call.
    pub fn lookup(&mut self, ip: u64) -> (r: Option<LookupResult>)
        requires
            old(self).wf(),
        ensures
            final(self).wf(),
            lookup_post(old(self).cache(), old(self).covers(ip), ip, final(self).cache(), result_view(r)),
            r is Some ==> r->0.wf(),
            r is Some && !old(self).cache().contains_key(ip) ==> r->0.module_id == old(
                self,
            ).module_id_at(ip),
            !old(self).cache().contains_key(ip) && old(self).covers(ip) ==> exists|
                fs: Seq<RawFrame>,
                sym: Option<Seq<char>>,
            | #[trigger] lookup_of(old(self).module_id_at(ip), fs, sym) == result_view(r),
            forall|p: u64| #[trigger] final(self).covers(p) == old(self).covers(p),
    {
        if let Some(found) = self.cached.get(&ip) {
            return Some(found.duplicate());
        }
        let start = match range_at(&self.modules, ip) {
            Some(s) => s,
            None => {
                return None;
            },
        };
        let module = match self.infos.get(&start) {
            Some(m) => m,
            None => {
                return None;
            },
        };
        let loader = match self.loaders.get(&start) {
            Some(l) => l,
            None => {
                return None;
            },
        };
        assert(module.id == old(self).module_id_at(ip));
        let found = module.lookup(ip, loader);
        let result = match found {
            Some(res) => res,
            None => {
                assert(exists|fs: Seq<RawFrame>, sym: Option<Seq<char>>|
                    #[trigger] lookup_of(old(self).module_id_at(ip), fs, sym) == result_view(found));
                return None;
            },
        };
        let copy = result.duplicate();
        self.cached.insert(ip, copy);
        proof {
            assert(self.cache() =~= old(self).cache().insert(ip, result@));
        }
        Some(result)
    }
}

/// What a lookup of `ip` does to the cache and returns: a remembered result
/// is returned as it is; otherwise a result is only found for a covered
/// address, and is then remembered.
pub open spec fn lookup_post(
    before: Map<u64, (usize, Seq<LocationView>)>,
    covered: bool,
    ip: u64,
    after: Map<u64, (usize, Seq<LocationView>)>,
    r: Option<(usize, Seq<LocationView>)>,
) -> bool {
    if before.contains_key(ip) {
        r == Some(before[ip]) && after == before
    } else {
        &&& !covered ==> r is None
        &&& r is None ==> after == before
        &&& r is Some ==> after == before.insert(ip, r->0)
    }
}

/// Once a lookup of `ip` has found a result, every later lookup of `ip`
/// returns a result equal to it by value.
pub proof fn lemma_lookup_idempotent(
    c0: Map<u64, (usize, Seq<LocationView>)>,
    covered1: bool,
    c1: Map<u64, (usize, Seq<LocationView>)>,
    r1: Option<(usize, Seq<LocationView>)>,
    covered2: bool,
    c2: Map<u64, (usize, Seq<LocationView>)>,
    r2: Option<(usize, Seq<LocationView>)>,
    ip: u64,
)
    requires
        lookup_post(c0, covered1, ip, c1, r1),
        lookup_post(c1, covered2, ip, c2, r2),
        r1 is Some,
    ensures
        r2 == r1,
        c2 == c1,
{
}

} // verus!
