//! Routes and the router.

use crate::props::{Entries, Props};
use crate::text::str_eq;
use vstd::prelude::*;
use vstd::string::StringExecFns;

verus! {

/// A route: a path and the component that is shown under it.
#[derive(Debug, PartialEq, Eq)]
pub struct Route {
    pub path: String,
    pub component: String,
    pub params: Props,
    pub query: Props,
}

/// Mathematical model of a route.
pub struct RouteModel {
    pub path: Seq<char>,
    pub component: Seq<char>,
    pub params: Entries,
    pub query: Entries,
}

impl View for Route {
    type V = RouteModel;

    open spec fn view(&self) -> RouteModel {
        RouteModel {
            path: self.path@,
            component: self.component@,
            params: self.params@,
            query: self.query@,
        }
    }
}

impl Clone for Route {
    fn clone(&self) -> (r: Self)
        ensures
            r@ == self@,
    {
        Route {
            path: self.path.clone(),
            component: self.component.clone(),
            params: self.params.clone(),
            query: self.query.clone(),
        }
    }
}

/// The route that shows `component` under `path`, without parameters.
pub open spec fn plain_route(path: Seq<char>, component: Seq<char>) -> RouteModel {
    RouteModel { path, component, params: Seq::empty(), query: Seq::empty() }
}

/// The models of the routes of `v`.
pub open spec fn routes_view(v: Seq<Route>) -> Seq<RouteModel> {
    Seq::new(v.len(), |i: int| v[i]@)
}

/// The first index at or after `from` whose route has the path `path`; the length
/// where there is none.
pub open spec fn path_from(routes: Seq<RouteModel>, path: Seq<char>, from: int) -> int
    decreases routes.len() - from,
{
    if from < 0 || from >= routes.len() {
        routes.len() as int
    } else if routes[from].path == path {
        from
    } else {
        path_from(routes, path, from + 1)
    }
}

/// The first route with exactly the path `path`, if there is one.
pub open spec fn first_match(routes: Seq<RouteModel>, path: Seq<char>) -> Option<RouteModel> {
    let i = path_from(routes, path, 0);
    if 0 <= i < routes.len() {
        Some(routes[i])
    } else {
        None
    }
}

/// What a router holds: its routes in the order in which they were added, and the
/// route that is current.
pub struct RouterModel {
    pub routes: Seq<RouteModel>,
    pub current: RouteModel,
}

/// The routes of an application and the route that is current.
#[derive(Debug, PartialEq, Eq)]
pub struct Router {
    routes: Vec<Route>,
    current: Route,
}

impl View for Router {
    type V = RouterModel;

    closed spec fn view(&self) -> RouterModel {
        RouterModel { routes: routes_view(self.routes@), current: self.current@ }
    }
}

impl Router {
    /// A router without routes; the current route shows `Home` under `/`.
    pub fn new() -> (r: Self)
        ensures
            r@.routes == Seq::<RouteModel>::empty(),
            r@.current == plain_route("/"@, "Home"@),
    {
        let r = Router {
            routes: Vec::new(),
            current: Route {
                path: String::from_str("/"),
                component: String::from_str("Home"),
                params: Props::new(),
                query: Props::new(),
            },
        };
        assert(r@.routes =~= Seq::<RouteModel>::empty());
        r
    }

    /// Adds the route that shows `component` under `path`, behind the routes there are.
    pub fn add_route(&mut self, path: &str, component: &str)
        ensures
            final(self)@.routes == old(self)@.routes.push(plain_route(path@, component@)),
            final(self)@.current == old(self)@.current,
    {
        let route = Route {
            path: String::from_str(path),
            component: String::from_str(component),
            params: Props::new(),
            query: Props::new(),
        };
        let ghost before = self@.routes;
        self.routes.push(route);
        assert(self@.routes =~= before.push(plain_route(path@, component@)));
    }

    /// The first route whose path is exactly `path`, if there is one.
    pub fn find_route(&self, path: &str) -> (r: Option<Route>)
        ensures
            match r {
                Some(route) => first_match(self@.routes, path@) == Some(route@),
                None => first_match(self@.routes, path@) is None,
            },
    {
        let mut i: usize = 0;
        while i < self.routes.len()
            invariant
                i <= self.routes.len(),
                path_from(self@.routes, path@, 0) == path_from(self@.routes, path@, i as int),
            decreases self.routes.len() - i,
        {
            assert(self@.routes[i as int] == self.routes[i as int]@);
            if str_eq(self.routes[i].path.as_str(), path) {
                return Some(self.routes[i].clone());
            }
            i += 1;
        }
        None
    }

    /// Makes the first route with the path `path` the current one, and tells whether
    /// there is such a route; the current route stays where there is none.
    pub fn navigate(&mut self, path: &str) -> (found: bool)
        ensures
            final(self)@.routes == old(self)@.routes,
            match first_match(old(self)@.routes, path@) {
                Some(route) => found && final(self)@.current == route,
                None => !found && final(self)@.current == old(self)@.current,
            },
    {
        match self.find_route(path) {
            Some(route) => {
                self.current = route;
                true
            },
            None => false,
        }
    }

    /// The route that is current.
    pub fn current_route(&self) -> (r: Route)
        ensures
            r@ == self@.current,
    {
        self.current.clone()
    }
}

/// What navigates to a path where there is no browser: something that may be called
/// with any path and does nothing.
pub fn use_navigate() -> (go: impl Fn(&str))
    ensures
        forall|path: &str| go.requires((path,)),
{
    |_path: &str| {  }
}

/// The parameters of the current route, of which there are none.
pub fn use_params() -> (r: Props)
    ensures
        r@ == Seq::<(Seq<char>, Seq<char>)>::empty(),
{
    Props::new()
}

/// The query parameters of the current route, of which there are none.
pub fn use_query() -> (r: Props)
    ensures
        r@ == Seq::<(Seq<char>, Seq<char>)>::empty(),
{
    Props::new()
}

/// What a link is made of.
#[derive(Debug, PartialEq, Eq)]
pub struct LinkProps {
    /// The path that the link leads to.
    pub to: String,
    /// The class of the link, if it has one.
    pub class: Option<String>,
    /// The text of the link.
    pub children: String,
}

/// The script that a link to `to` runs when it is clicked.
pub open spec fn link_script(to: Seq<char>) -> Seq<char> {
    "ferrum.navigate('"@ + to + "')"@
}

/// The attributes of the anchor that stands for a link: where it leads, the script
/// that it runs when clicked, and its class where it has one.
pub fn link_attributes(props: &LinkProps) -> (r: Props)
    ensures
        r@ == match props.class {
            Some(c) => crate::props::put(
                crate::props::put(
                    crate::props::put(Seq::empty(), "href"@, props.to@),
                    "onclick"@,
                    link_script(props.to@),
                ),
                "class"@,
                c@,
            ),
            None => crate::props::put(
                crate::props::put(Seq::empty(), "href"@, props.to@),
                "onclick"@,
                link_script(props.to@),
            ),
        },
{
    let mut script = String::from_str("ferrum.navigate('");
    script.append(props.to.as_str());
    script.append("')");
    let mut m = Props::new();
    m.insert(String::from_str("href"), props.to.clone());
    m.insert(String::from_str("onclick"), script);
    match &props.class {
        Some(c) => {
            m.insert(String::from_str("class"), c.clone());
        },
        None => {},
    }
    m
}

} // verus!
