//! Choice of an event's destination and validation of an instance registration.
use vstd::prelude::*;
use crate::fields::{entries_of, Fields};
use crate::value::ValueView;
use crate::model::{field_size, spec_field_size, Error, InstanceConfig, Refusal, Route};
use crate::names::{spec_valid_name, valid_name};
use crate::text::{
    byte_len, byte_length, same_text, slice_range, starts_with, starts_with_exec, to_chars,
};

verus! {

/// A route as text: module prefix and destination.
pub type RouteView = (Seq<char>, Seq<char>);

pub open spec fn route_view(r: Route) -> RouteView {
    (r.module_prefix@, r.destination@)
}

pub open spec fn routes_view(rs: Seq<Route>) -> Seq<RouteView> {
    rs.map_values(|r: Route| route_view(r))
}

pub open spec fn names_view(ns: Seq<String>) -> Seq<Seq<char>> {
    ns.map_values(|n: String| n@)
}

pub open spec fn colons() -> Seq<char> {
    seq![':', ':']
}

/// `module` is `prefix` or lies under it as a path segment (`prefix::…`).
pub open spec fn under_prefix(module: Seq<char>, prefix: Seq<char>) -> bool {
    module == prefix || (starts_with(module, prefix) && starts_with(
        module.skip(prefix.len() as int),
        colons(),
    ))
}

/// Among the routes whose prefix covers `module`, the index of the one with the
/// longest prefix (in bytes), the earliest one among equals.
pub open spec fn longest_route(routes: Seq<RouteView>, module: Seq<char>) -> Option<int>
    decreases routes.len(),
{
    if routes.len() == 0 {
        None
    } else {
        let last = routes.len() - 1;
        let prev = longest_route(routes.drop_last(), module);
        if under_prefix(module, routes[last].0) && match prev {
            None => true,
            Some(p) => byte_len(routes[p].0) < byte_len(routes[last].0),
        } {
            Some(last)
        } else {
            prev
        }
    }
}

/// First occurrence of `p` in `s` at or after position `i`.
pub open spec fn find_first_from(s: Seq<char>, p: Seq<char>, i: int) -> Option<int>
    decreases s.len() + 1 - i,
{
    if i < 0 || i + p.len() > s.len() {
        None
    } else if crate::text::occurs_at(s, p, i) {
        Some(i)
    } else {
        find_first_from(s, p, i + 1)
    }
}

/// The first `::` segment of a module path (the crate name).
pub open spec fn crate_segment(module: Seq<char>) -> Seq<char> {
    match find_first_from(module, colons(), 0) {
        Some(i) => module.take(i),
        None => module,
    }
}

/// Destination of an event: the explicit one if declared (otherwise the event is
/// refused), else the route with the longest covering prefix, else the
/// destination named after the crate, else the first destination.
pub open spec fn spec_destination(
    destinations: Seq<Seq<char>>,
    routes: Seq<RouteView>,
    module: Seq<char>,
    explicit: Option<Seq<char>>,
) -> Result<Seq<char>, Refusal> {
    match explicit {
        Some(d) => if destinations.contains(d) {
            Ok(d)
        } else {
            Err(Refusal::UnknownDestination)
        },
        None => match longest_route(routes, module) {
            Some(i) => Ok(routes[i].1),
            None => if destinations.contains(crate_segment(module)) {
                Ok(crate_segment(module))
            } else {
                Ok(destinations[0])
            },
        },
    }
}

/// The chosen route covers the module, and no covering route has a longer prefix;
/// when none is chosen, no route covers the module.
pub proof fn lemma_longest_route(routes: Seq<RouteView>, module: Seq<char>)
    ensures
        longest_route(routes, module) matches Some(i) ==> {
            &&& 0 <= i < routes.len()
            &&& under_prefix(module, routes[i].0)
            &&& forall|j: int|
                0 <= j < routes.len() && under_prefix(module, routes[j].0) ==> byte_len(
                    #[trigger] routes[j].0,
                ) <= byte_len(routes[i].0)
        },
        longest_route(routes, module) is None ==> forall|j: int|
            0 <= j < routes.len() ==> !under_prefix(module, #[trigger] routes[j].0),
    decreases routes.len(),
{
    if routes.len() > 0 {
        let t = routes.drop_last();
        let last = routes.len() - 1;
        lemma_longest_route(t, module);
        assert forall|j: int| 0 <= j < t.len() implies #[trigger] t[j] == routes[j] by {}
        match longest_route(t, module) {
            Some(p) => {
                assert(t[p] == routes[p]);
                assert forall|j: int|
                    0 <= j < routes.len() && under_prefix(module, routes[j].0) implies byte_len(
                    #[trigger] routes[j].0,
                ) <= byte_len(routes[longest_route(routes, module)->0].0) by {
                    if j < last {
                        assert(t[j] == routes[j]);
                    }
                }
            },
            None => {
                assert forall|j: int|
                    0 <= j < routes.len() && under_prefix(module, routes[j].0) implies j == last by {
                    if j < last {
                        assert(t[j] == routes[j]);
                    }
                }
            },
        }
    }
}

fn under_prefix_exec(module: &[char], prefix: &[char]) -> (r: bool)
    ensures
        r == under_prefix(module@, prefix@),
{
    if same_text(module, prefix) {
        return true;
    }
    if !starts_with_exec(module, prefix) {
        return false;
    }
    let rest = slice_range(module, prefix.len(), module.len());
    assert(rest@ =~= module@.skip(prefix@.len() as int));
    let c = [':', ':'];
    assert(c@ =~= colons());
    starts_with_exec(&rest, &c)
}

/// Index of the route that [`longest_route`] chooses.
pub fn longest_route_exec(routes: &Vec<Route>, module: &[char]) -> (r: Option<usize>)
    ensures
        r matches Some(i) ==> longest_route(routes_view(routes@), module@) == Some(i as int),
        r is None ==> longest_route(routes_view(routes@), module@) is None,
{
    let ghost rv = routes_view(routes@);
    let mut best: Option<usize> = None;
    let mut best_len: usize = 0;
    let mut i: usize = 0;
    assert(rv.take(0) =~= Seq::<RouteView>::empty());
    while i < routes.len()
        invariant
            rv == routes_view(routes@),
            i <= rv.len(),
            best matches Some(b) ==> longest_route(rv.take(i as int), module@) == Some(b as int)
                && b < i && best_len == byte_len(rv[b as int].0),
            best is None ==> longest_route(rv.take(i as int), module@) is None,
        decreases rv.len() - i,
    {
        let prefix = to_chars(routes[i].module_prefix.as_str());
        let len = byte_length(routes[i].module_prefix.as_str());
        assert(rv[i as int] == route_view(routes@[i as int]));
        let ghost t = rv.take(i + 1);
        assert(t.drop_last() =~= rv.take(i as int));
        assert(t[i as int] == rv[i as int]);
        proof {
            if best is Some {
                let bb = best->0 as int;
                assert(t[bb] == rv[bb]);
            }
        }
        if under_prefix_exec(module, &prefix) {
            let better = match best {
                None => true,
                Some(_) => best_len < len,
            };
            if better {
                best = Some(i);
                best_len = len;
            }
        }
        i = i + 1;
    }
    assert(rv.take(rv.len() as int) =~= rv);
    best
}

/// Position of the first occurrence of `p` in `s`.
fn find_first_exec(s: &[char], p: &[char]) -> (r: Option<usize>)
    ensures
        r matches Some(i) ==> find_first_from(s@, p@, 0) == Some(i as int),
        r is None ==> find_first_from(s@, p@, 0) is None,
{
    let mut i: usize = 0;
    while i <= s.len() && p.len() <= s.len() - i
        invariant
            find_first_from(s@, p@, 0) == find_first_from(s@, p@, i as int),
            s@.len() == s.len(),
        decreases s@.len() - i,
    {
        let mut j: usize = 0;
        let mut ok = true;
        while j < p.len()
            invariant
                i + p@.len() <= s@.len(),
                s@.len() == s.len(),
                j <= p@.len(),
                ok == forall|k: int| 0 <= k < j ==> s@[i + k] == p@[k],
            decreases p@.len() - j,
        {
            if s[i + j] != p[j] {
                ok = false;
            }
            j = j + 1;
        }
        if ok {
            assert(s@.subrange(i as int, i + p@.len()) =~= p@);
            return Some(i);
        }
        proof {
            let k = choose|k: int| 0 <= k < p@.len() && s@[i + k] != p@[k];
            assert(s@.subrange(i as int, i + p@.len())[k] != p@[k]);
        }
        i = i + 1;
    }
    None
}

fn contains_name(names: &Vec<String>, name: &[char]) -> (r: Option<usize>)
    ensures
        r matches Some(i) ==> i < names@.len() && names@[i as int]@ == name@,
        r is None ==> !names_view(names@).contains(name@),
{
    let mut i: usize = 0;
    while i < names.len()
        invariant
            i <= names@.len(),
            forall|k: int| 0 <= k < i ==> names@[k]@ != name@,
        decreases names@.len() - i,
    {
        let n = to_chars(names[i].as_str());
        if same_text(&n, name) {
            return Some(i);
        }
        i = i + 1;
    }
    proof {
        if names_view(names@).contains(name@) {
            let k = choose|k: int| 0 <= k < names_view(names@).len() && names_view(names@)[k] == name@;
            assert(names@[k]@ == name@);
        }
    }
    None
}

/// The destination of an event of an instance with these destinations and
/// routes, produced in `module`, with an optional explicit destination.
pub fn select_destination(
    destinations: &Vec<String>,
    routes: &Vec<Route>,
    module: &str,
    explicit: Option<&str>,
) -> (r: Result<String, Refusal>)
    requires
        destinations@.len() > 0,
    ensures
        match r {
            Ok(d) => spec_destination(
                names_view(destinations@),
                routes_view(routes@),
                module@,
                match explicit {
                    Some(e) => Some(e@),
                    None => None,
                },
            ) == Ok::<Seq<char>, Refusal>(d@),
            Err(e) => spec_destination(
                names_view(destinations@),
                routes_view(routes@),
                module@,
                match explicit {
                    Some(e) => Some(e@),
                    None => None,
                },
            ) == Err::<Seq<char>, Refusal>(e),
        },
{
    let m = to_chars(module);
    match explicit {
        Some(e) => {
            let ec = to_chars(e);
            match contains_name(destinations, &ec) {
                Some(i) => {
                    assert(names_view(destinations@)[i as int] == e@);
                    Ok(destinations[i].clone())
                },
                None => Err(Refusal::UnknownDestination),
            }
        },
        None => {
            proof { lemma_longest_route(routes_view(routes@), m@); }
            match longest_route_exec(routes, &m) {
                Some(i) => {
                    assert(routes_view(routes@)[i as int] == route_view(routes@[i as int]));
                    Ok(routes[i].destination.clone())
                },
                None => {
                    let c = [':', ':'];
                    assert(c@ =~= colons());
                    let krate = match find_first_exec(&m, &c) {
                        Some(i) => {
                            proof {
                                lemma_find_first_bound(m@, colons(), 0);
                            }
                            slice_range(&m, 0, i)
                        },
                        None => m,
                    };
                    match contains_name(destinations, &krate) {
                        Some(i) => {
                            assert(names_view(destinations@)[i as int] == krate@);
                            Ok(destinations[i].clone())
                        },
                        None => {
                            assert(names_view(destinations@)[0] == destinations@[0]@);
                            Ok(destinations[0].clone())
                        },
                    }
                },
            }
        },
    }
}

proof fn lemma_find_first_bound(s: Seq<char>, p: Seq<char>, i: int)
    ensures
        find_first_from(s, p, i) matches Some(k) ==> i <= k && k + p.len() <= s.len(),
    decreases s.len() + 1 - i,
{
    if i >= 0 && i + p.len() <= s.len() && !crate::text::occurs_at(s, p, i) {
        lemma_find_first_bound(s, p, i + 1);
    }
}

/// No two names are equal.
pub open spec fn distinct(s: Seq<Seq<char>>) -> bool {
    forall|i: int, j: int| 0 <= i < j < s.len() ==> s[i] != s[j]
}

fn distinct_exec(names: &Vec<Vec<char>>) -> (r: bool)
    ensures
        r == distinct(names@.map_values(|n: Vec<char>| n@)),
{
    let ghost v = names@.map_values(|n: Vec<char>| n@);
    let mut i: usize = 0;
    while i < names.len()
        invariant
            v == names@.map_values(|n: Vec<char>| n@),
            i <= v.len(),
            forall|a: int, b: int| 0 <= a < b < v.len() && a < i ==> v[a] != v[b],
        decreases v.len() - i,
    {
        let mut j: usize = i + 1;
        while j < names.len()
            invariant
                v == names@.map_values(|n: Vec<char>| n@),
                i < v.len(),
                i + 1 <= j <= v.len(),
                forall|a: int, b: int| 0 <= a < b < v.len() && a < i ==> v[a] != v[b],
                forall|b: int| i < b < j ==> v[i as int] != v[b],
            decreases v.len() - j,
        {
            if same_text(&names[i], &names[j]) {
                assert(v[i as int] == v[j as int]);
                return false;
            }
            j = j + 1;
        }
        i = i + 1;
    }
    true
}

/// Outcome of the checks that do not involve the context.
pub open spec fn spec_check_names(
    name: Seq<char>,
    destinations: Seq<Seq<char>>,
    routes: Seq<RouteView>,
) -> Result<(), Error> {
    if !spec_valid_name(name) || destinations.len() == 0 || exists|i: int|
        0 <= i < destinations.len() && !spec_valid_name(#[trigger] destinations[i]) {
        Err(Error::Invalid("names must be lowercase ASCII identifiers"))
    } else if !distinct(destinations) {
        Err(Error::Invalid("duplicate destination"))
    } else if routes.len() > 128 || exists|i: int|
        0 <= i < routes.len() && (routes[i].0.len() == 0 || byte_len(#[trigger] routes[i].0)
            > 256 || !destinations.contains(routes[i].1)) {
        Err(Error::Invalid("invalid routing table"))
    } else if !distinct(routes.map_values(|r: RouteView| r.0)) {
        Err(Error::Invalid("duplicate route"))
    } else {
        Ok(())
    }
}

/// Outcome of checking a registration: names, destinations and routes, then the
/// merged context (application entries overridden by the instance's), whose
/// budget must fit half of an event.
pub open spec fn spec_check_instance(
    name: Seq<char>,
    destinations: Seq<Seq<char>>,
    routes: Seq<RouteView>,
    merged: Map<Seq<char>, ValueView>,
    max_event_bytes: usize,
) -> Result<(), Error> {
    match spec_check_names(name, destinations, routes) {
        Err(e) => Err(e),
        Ok(()) => match spec_field_size(entries_of(merged)) {
            Err(e) => Err(e),
            Ok(n) => if n > max_event_bytes / 2 {
                Err(Error::Invalid("instance context exceeds half event budget"))
            } else {
                Ok(())
            },
        },
    }
}

fn check_names(config: &InstanceConfig) -> (r: Result<(), Error>)
    ensures
        r == spec_check_names(
            config.name@,
            names_view(config.destinations@),
            routes_view(config.routes@),
        ),
{
    let ghost dv = names_view(config.destinations@);
    let ghost rv = routes_view(config.routes@);
    let invalid_names = Err(Error::Invalid("names must be lowercase ASCII identifiers"));
    if !valid_name(config.name.as_str()) || config.destinations.len() == 0 {
        return invalid_names;
    }
    let mut dests: Vec<Vec<char>> = Vec::new();
    let mut i: usize = 0;
    while i < config.destinations.len()
        invariant
            dv == names_view(config.destinations@),
            spec_valid_name(config.name@),
            dv.len() > 0,
            i <= dv.len(),
            dests@.map_values(|n: Vec<char>| n@) == dv.take(i as int),
            forall|k: int| 0 <= k < i ==> spec_valid_name(#[trigger] dv[k]),
        decreases dv.len() - i,
    {
        let d = to_chars(config.destinations[i].as_str());
        assert(dv[i as int] == config.destinations@[i as int]@);
        if !crate::names::valid_name_chars(&d) {
            assert(!spec_valid_name(dv[i as int]));
            assert(exists|k: int| 0 <= k < dv.len() && !spec_valid_name(#[trigger] dv[k]));
            return Err(Error::Invalid("names must be lowercase ASCII identifiers"));
        }
        let ghost before = dests@;
        let ghost dview = d@;
        dests.push(d);
        assert(dests@ =~= before.push(d));
        assert(dview == dv[i as int]);
        assert(dests@.map_values(|n: Vec<char>| n@) =~= before.map_values(|n: Vec<char>| n@).push(dview));
        assert(dests@.map_values(|n: Vec<char>| n@) =~= dv.take(i + 1));
        i = i + 1;
    }
    assert(dv.take(dv.len() as int) =~= dv);
    if !distinct_exec(&dests) {
        return Err(Error::Invalid("duplicate destination"));
    }
    let invalid_routes = Err(Error::Invalid("invalid routing table"));
    if config.routes.len() > 128 {
        return invalid_routes;
    }
    let mut prefixes: Vec<Vec<char>> = Vec::new();
    let mut j: usize = 0;
    while j < config.routes.len()
        invariant
            rv == routes_view(config.routes@),
            dv == names_view(config.destinations@),
            spec_valid_name(config.name@),
            dv.len() > 0,
            forall|k: int| 0 <= k < dv.len() ==> spec_valid_name(#[trigger] dv[k]),
            distinct(dv),
            rv.len() <= 128,
            j <= rv.len(),
            prefixes@.map_values(|n: Vec<char>| n@) == rv.take(j as int).map_values(
                |r: RouteView| r.0,
            ),
            forall|k: int|
                0 <= k < j ==> !(rv[k].0.len() == 0 || byte_len(#[trigger] rv[k].0) > 256
                    || !dv.contains(rv[k].1)),
        decreases rv.len() - j,
    {
        let route = &config.routes[j];
        assert(rv[j as int] == route_view(config.routes@[j as int]));
        let p = to_chars(route.module_prefix.as_str());
        let len = byte_length(route.module_prefix.as_str());
        let d = to_chars(route.destination.as_str());
        let declared = contains_name(&config.destinations, &d);
        if p.len() == 0 || len > 256 || declared.is_none() {
            proof {
                if declared is Some {
                    assert(p@.len() == 0 || len > 256);
                }
            }
            assert(rv[j as int].0.len() == 0 || byte_len(rv[j as int].0) > 256 || !dv.contains(
                rv[j as int].1,
            ));
            assert(exists|k: int|
                0 <= k < rv.len() && (rv[k].0.len() == 0 || byte_len(#[trigger] rv[k].0) > 256
                    || !dv.contains(rv[k].1)));
            assert(distinct(dv));
            assert(!(exists|k: int| 0 <= k < dv.len() && !spec_valid_name(#[trigger] dv[k])));
            return Err(Error::Invalid("invalid routing table"));
        }
        proof {
            let k = declared->0 as int;
            assert(dv[k] == rv[j as int].1);
        }
        let ghost before = prefixes@;
        let ghost pview = p@;
        prefixes.push(p);
        assert(prefixes@ =~= before.push(p));
        assert(prefixes@.map_values(|n: Vec<char>| n@) =~= before.map_values(|n: Vec<char>| n@).push(pview));
        assert(rv.take(j + 1).map_values(|r: RouteView| r.0) =~= rv.take(j as int).map_values(
            |r: RouteView| r.0,
        ).push(rv[j as int].0));
        assert(prefixes@.map_values(|n: Vec<char>| n@) =~= rv.take(j + 1).map_values(
            |r: RouteView| r.0,
        ));
        j = j + 1;
    }
    assert(rv.take(rv.len() as int) =~= rv);
    if !distinct_exec(&prefixes) {
        return Err(Error::Invalid("duplicate route"));
    }
    Ok(())
}

/// Checks names, destinations and routes of a registration and returns the merged
/// context: application entries overridden by the instance's.
pub fn check_instance(config: &InstanceConfig, app_context: &Fields, max_event_bytes: usize) -> (r: Result<Fields, Error>)
    ensures
        r matches Ok(m) ==> m.map() == app_context.map().union_prefer_right(config.context.map()),
        match r {
            Ok(_) => spec_check_instance(
                config.name@,
                names_view(config.destinations@),
                routes_view(config.routes@),
                app_context.map().union_prefer_right(config.context.map()),
                max_event_bytes,
            ) is Ok,
            Err(e) => spec_check_instance(
                config.name@,
                names_view(config.destinations@),
                routes_view(config.routes@),
                app_context.map().union_prefer_right(config.context.map()),
                max_event_bytes,
            ) == Err::<(), Error>(e),
        },
{
    match check_names(config) {
        Err(e) => return Err(e),
        Ok(()) => {},
    }
    let mut merged = app_context.duplicate();
    merged.extend(&config.context);
    let _ = merged.len();
    match field_size(&merged) {
        Err(e) => Err(e),
        Ok(n) => if n > max_event_bytes / 2 {
            Err(Error::Invalid("instance context exceeds half event budget"))
        } else {
            Ok(merged)
        },
    }
}

} // verus!
