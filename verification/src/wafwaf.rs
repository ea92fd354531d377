use path_tree::PathTree;
use vstd::prelude::*;
use vstd::string::StringExecFns;

verus! {

/// The route tree of the `path-tree` crate. Nothing inside it is visible here.
#[verifier::external_type_specification]
#[verifier::external_body]
#[verifier::reject_recursive_types(T)]
pub struct ExPathTree<T>(PathTree<T>);

/// The values that a route tree holds, one for each route, in the order in
/// which the routes were first inserted.
pub uninterp spec fn held(tree: PathTree<usize>) -> Seq<usize>;

/// What a route tree finds for each path: the value of the route that matches
/// the path, and the parameters of the match, each with its name. A path that
/// no route matches is no key.
pub uninterp spec fn matched(tree: PathTree<usize>) -> Map<
    Seq<char>,
    (usize, Seq<(Seq<char>, Seq<char>)>),
>;

/// The texts of a list of pairs of strings.
pub open spec fn pairs_of(pairs: Seq<(String, String)>) -> Seq<(Seq<char>, Seq<char>)> {
    Seq::new(pairs.len(), |i: int| (pairs[i].0@, pairs[i].1@))
}

/// `PathTree::new`: a tree without routes.
#[verifier::external_body]
fn tree_new() -> (tree: PathTree<usize>)
    ensures
        held(tree) == Seq::<usize>::empty(),
{
    PathTree::new()
}

/// `PathTree::insert`: the value of the route that `path` names is set to
/// `value`. A route that the tree did not have is added behind the others; the
/// number of the route is handed back.
#[verifier::external_body]
fn tree_insert(tree: &mut PathTree<usize>, path: &str, value: usize) -> (id: usize)
    ensures
        id <= held(*old(tree)).len(),
        id < held(*old(tree)).len() ==> held(*final(tree)) == held(*old(tree)).update(
            id as int,
            value,
        ),
        id == held(*old(tree)).len() ==> held(*final(tree)) == held(*old(tree)).push(value),
{
    tree.insert(path, value)
}

/// `PathTree::find`, with `Path::params` on what it found: the value of the
/// route that matches `path`, and the parameters of the match, each with its
/// name. What is found depends on the tree and the path alone, and the value
/// is one that the tree holds.
#[verifier::external_body]
fn tree_find(tree: &PathTree<usize>, path: &str) -> (found: Option<(usize, Vec<(String, String)>)>)
    ensures
        found is Some <==> matched(*tree).dom().contains(path@),
        found matches Some((value, params)) ==> matched(*tree)[path@] == (
            value,
            pairs_of(params@),
        ),
        found matches Some((value, _)) ==> held(*tree).contains(value),
{
    tree.find(path).map(
        |(value, matched)|
            (
                *value,
                matched.params().into_iter().map(
                    |(name, text)| (name.to_string(), text.to_string()),
                ).collect(),
            ),
    )
}

/// The status of the answer where no route matches.
pub const NOT_FOUND: u16 = 404;

/// What a request comes to.
#[derive(Debug, PartialEq, Eq)]
pub enum Route {
    /// The handler of this number answers, with these parameters of the path.
    Found { handler: usize, params: Vec<(String, String)> },
    /// No route matches: the answer is empty and has the status [`NOT_FOUND`].
    NotFound,
}

/// The path under which the route tree keeps the route of `method` and `url`:
/// a slash, the method, a slash, and the url.
pub open spec fn keyed(method: Seq<char>, url: Seq<char>) -> Seq<char> {
    seq!['/'] + method + seq!['/'] + url
}

/// The path under which the route tree keeps the route of `method` and `url`.
pub fn route_key(method: &str, url: &str) -> (key: String)
    ensures
        key@ == keyed(method@, url@),
{
    proof {
        reveal_strlit("/");
    }
    let mut key = String::from_str("/");
    key.append(method);
    key.append("/");
    key.append(url);
    proof {
        assert("/"@ =~= seq!['/']);
    }
    key
}

/// What a request comes to, given what the route tree found for it.
pub fn answer(found: Option<(usize, Vec<(String, String)>)>) -> (route: Route)
    ensures
        route == match found {
            Some((handler, params)) => Route::Found { handler, params },
            None => Route::NotFound,
        },
{
    match found {
        Some((handler, params)) => Route::Found { handler, params },
        None => Route::NotFound,
    }
}

/// A web application: routes by method and path, each with the number of the
/// handler that answers it.
pub struct WafWaf {
    tree: PathTree<usize>,
    bound: usize,
    log: Ghost<Seq<(Seq<char>, usize)>>,
}

/// The least number above all handler numbers of a list of registrations.
pub open spec fn limit_of(log: Seq<(Seq<char>, usize)>) -> nat
    decreases log.len(),
{
    if log.len() == 0 {
        0
    } else if limit_of(log.drop_last()) > log.last().1 {
        limit_of(log.drop_last())
    } else {
        (log.last().1 + 1) as nat
    }
}

impl WafWaf {
    /// Every handler number in the route tree is below the bound, the bound
    /// is that of the registrations, and without a registration the route tree
    /// holds nothing.
    pub closed spec fn wf(&self) -> bool {
        &&& forall|i: int|
            0 <= i < held(self.tree).len() ==> #[trigger] held(self.tree)[i] < self.bound
        &&& self.bound == limit_of(self.log@)
        &&& self.log@.len() == 0 ==> held(self.tree).len() == 0
    }

    /// What the route tree finds for the path `key`, if a route matches it:
    /// the number of the handler of that route, and the parameters of the
    /// match, each with its name.
    pub closed spec fn finds(&self, key: Seq<char>) -> Option<
        (usize, Seq<(Seq<char>, Seq<char>)>),
    > {
        if matched(self.tree).dom().contains(key) {
            Some(matched(self.tree)[key])
        } else {
            None
        }
    }

    /// What was registered, in order: the path under which the route tree
    /// keeps a route, and the number of its handler.
    pub closed spec fn registered(&self) -> Seq<(Seq<char>, usize)> {
        self.log@
    }

    /// The least number above all handler numbers that were registered.
    pub open spec fn limit(&self) -> nat {
        limit_of(self.registered())
    }

    /// An application without routes.
    pub fn new() -> (app: Self)
        ensures
            app.wf(),
            app.registered() == Seq::<(Seq<char>, usize)>::empty(),
    {
        WafWaf { tree: tree_new(), bound: 0, log: Ghost(Seq::empty()) }
    }

    /// Registers `handler` under `method` and `url`.
    fn register(&mut self, method: &str, url: &str, handler: usize)
        requires
            old(self).wf(),
            handler < usize::MAX,
        ensures
            final(self).wf(),
            final(self).registered() == old(self).registered().push(
                (keyed(method@, url@), handler),
            ),
    {
        let path = route_key(method, url);
        let ghost before = held(self.tree);
        let _ = tree_insert(&mut self.tree, path.as_str(), handler);
        if self.bound <= handler {
            self.bound = handler + 1;
        }
        proof {
            self.log@ = self.log@.push((path@, handler));
            assert(self.log@.drop_last() =~= old(self).log@);
            assert forall|i: int| 0 <= i < held(self.tree).len() implies #[trigger] held(
                self.tree,
            )[i] < self.bound by {
                if i < before.len() {
                    assert(before[i] < old(self).bound);
                }
            }
        }
    }

    /// Registers `handler` for `GET` requests on `url`.
    pub fn get(&mut self, url: &str, handler: usize)
        requires
            old(self).wf(),
            handler < usize::MAX,
        ensures
            final(self).wf(),
            final(self).registered() == old(self).registered().push(
                (keyed("GET"@, url@), handler),
            ),
    {
        self.register("GET", url, handler);
    }

    /// Registers `handler` for `PUT` requests on `url`.
    pub fn put(&mut self, url: &str, handler: usize)
        requires
            old(self).wf(),
            handler < usize::MAX,
        ensures
            final(self).wf(),
            final(self).registered() == old(self).registered().push(
                (keyed("PUT"@, url@), handler),
            ),
    {
        self.register("PUT", url, handler);
    }

    /// Registers `handler` for `POST` requests on `url`.
    pub fn post(&mut self, url: &str, handler: usize)
        requires
            old(self).wf(),
            handler < usize::MAX,
        ensures
            final(self).wf(),
            final(self).registered() == old(self).registered().push(
                (keyed("POST"@, url@), handler),
            ),
    {
        self.register("POST", url, handler);
    }

    /// Registers `handler` for `DELETE` requests on `url`.
    pub fn delete(&mut self, url: &str, handler: usize)
        requires
            old(self).wf(),
            handler < usize::MAX,
        ensures
            final(self).wf(),
            final(self).registered() == old(self).registered().push(
                (keyed("DELETE"@, url@), handler),
            ),
    {
        self.register("DELETE", url, handler);
    }

    /// What a request of `method` on `path` comes to: the route tree is asked
    /// for the path under which such a route is kept, and what it finds is the
    /// answer. Where nothing was registered no route is found. A handler that
    /// is named is one that was registered.
    pub fn respond(&self, method: &str, path: &str) -> (route: Route)
        requires
            self.wf(),
        ensures
            match self.finds(keyed(method@, path@)) {
                Some((handler, params)) => route matches Route::Found { handler: h, params: p }
                    && h == handler && pairs_of(p@) == params,
                None => route == Route::NotFound,
            },
            self.registered().len() == 0 ==> route == Route::NotFound,
            route matches Route::Found { handler, .. } ==> handler < self.limit(),
    {
        let key = route_key(method, path);
        let found = tree_find(&self.tree, key.as_str());
        answer(found)
    }
}

} // verus!
