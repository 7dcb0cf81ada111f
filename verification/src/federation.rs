//! Many nodes, one space: whom a node knows, what it shares, and what it takes over.
use crate::emergence::{convergence_is_told_by_its_label, ends_in_convergence, is_convergence};
use crate::field::alive;
use crate::graph::{
    distinct_labels, edges_after_removal, label_found, labelled, labelled_from, reindexed,
    removal_keeps_others, swap_removed, Entity, EntityView, Relation, SpaceGraph,
};
use crate::host::{
    dotted, internal_host, internal_octets, is_internal, is_internal_address, read_host,
    HostAddress,
};
use crate::order::{kept, kept_grows};
use crate::stamp::Timestamp;
use crate::store::{entity_views, peer_views};
use crate::text::{
    contains_part, ends_with, has_part, has_prefix, joined, lowercase, prefixes_begin, same_text,
    starts_with, texts, to_lower, trim_end, without_end,
};
use crate::wander::begins_as_wanderer;
use vstd::prelude::*;

verus! {

/// The name of the node that every other node knows.
pub const BOOTSTRAP_HOST: &'static str = "space.gold3112.online";

/// Where the peer with an address stands in a list, from `i` on.
pub open spec fn peer_from(peers: Seq<(Seq<char>, u128)>, url: Seq<char>, i: int) -> Option<int>
    decreases peers.len() - i,
{
    if i < 0 || i >= peers.len() {
        None
    } else if peers[i].0 == url {
        Some(i)
    } else {
        peer_from(peers, url, i + 1)
    }
}

/// Where the peer with an address stands in a list.
pub open spec fn peer_at(peers: Seq<(Seq<char>, u128)>, url: Seq<char>) -> Option<int> {
    peer_from(peers, url, 0)
}

/// No two peers have the same address.
pub open spec fn distinct_peers(peers: Seq<(Seq<char>, u128)>) -> bool {
    forall|i: int, j: int|
        0 <= i < j < peers.len() ==> (#[trigger] peers[i]).0 != (#[trigger] peers[j]).0
}

/// The peers with one more, in the place of any with the same address.
pub open spec fn with_peer(peers: Seq<(Seq<char>, u128)>, url: Seq<char>, id: u128) -> Seq<
    (Seq<char>, u128),
> {
    match peer_at(peers, url) {
        Some(i) => peers.update(i, (url, id)),
        None => peers.push((url, id)),
    }
}

/// The peers that a list of addresses and identifiers leaves behind: of an address that comes
/// twice, the later identifier.
pub open spec fn settled_peers(all: Seq<(Seq<char>, u128)>) -> Seq<(Seq<char>, u128)>
    decreases all.len(),
{
    if all.len() == 0 {
        Seq::empty()
    } else {
        with_peer(settled_peers(all.drop_last()), all.last().0, all.last().1)
    }
}

/// The peers with another address than `url`.
pub open spec fn peers_but(peers: Seq<(Seq<char>, u128)>, url: Seq<char>) -> Seq<(Seq<char>, u128)>
    decreases peers.len(),
{
    if peers.len() == 0 {
        Seq::empty()
    } else if peers.last().0 == url {
        peers_but(peers.drop_last(), url)
    } else {
        peers_but(peers.drop_last(), url).push(peers.last())
    }
}

/// A search finds the first peer with an address, and finds one where there is any.
pub proof fn peer_found(peers: Seq<(Seq<char>, u128)>, url: Seq<char>, from: int)
    requires
        0 <= from <= peers.len(),
    ensures
        match peer_from(peers, url, from) {
            Some(i) => from <= i < peers.len() && peers[i].0 == url,
            None => forall|i: int| from <= i < peers.len() ==> (#[trigger] peers[i]).0 != url,
        },
    decreases peers.len() - from,
{
    if from < peers.len() && peers[from].0 != url {
        peer_found(peers, url, from + 1);
    }
}

/// The nodes that this one knows, in the order in which it came to know them.
pub struct PeerBook {
    pub peers: Vec<(String, u128)>,
}

impl View for PeerBook {
    type V = Seq<(Seq<char>, u128)>;

    open spec fn view(&self) -> Seq<(Seq<char>, u128)> {
        peer_views(self.peers@)
    }
}

impl PeerBook {
    /// Every address is known once.
    pub open spec fn wf(self) -> bool {
        distinct_peers(self@)
    }

    /// No node is known.
    pub fn new() -> (r: PeerBook)
        ensures
            r.wf(),
            r@ == Seq::<(Seq<char>, u128)>::empty(),
    {
        let r = PeerBook { peers: Vec::new() };
        proof {
            assert(r@ =~= Seq::<(Seq<char>, u128)>::empty());
        }
        r
    }

    /// The nodes of a list are known.
    pub fn from_list(all: &Vec<(String, u128)>) -> (r: PeerBook)
        ensures
            r.wf(),
            r@ == settled_peers(peer_views(all@)),
    {
        let ghost views = peer_views(all@);
        let mut r = PeerBook::new();
        let mut i: usize = 0;
        while i < all.len()
            invariant
                i <= all@.len(),
                views == peer_views(all@),
                r.wf(),
                r@ == settled_peers(views.take(i as int)),
            decreases all@.len() - i,
        {
            proof {
                assert(views.take(i + 1).drop_last() =~= views.take(i as int));
                assert(views.take(i + 1).last() == (all@[i as int].0@, all@[i as int].1));
            }
            r.insert(all[i].0.as_str(), all[i].1);
            i = i + 1;
        }
        proof {
            assert(views.take(i as int) =~= views);
        }
        r
    }

    /// Where the node with an address stands in the list.
    pub fn find(&self, url: &str) -> (r: Option<usize>)
        ensures
            match r {
                Some(i) => peer_at(self@, url@) == Some(i as int) && i < self@.len(),
                None => peer_at(self@, url@) is None,
            },
    {
        let mut i: usize = 0;
        while i < self.peers.len()
            invariant
                i <= self.peers@.len(),
                peer_at(self@, url@) == peer_from(self@, url@, i as int),
            decreases self.peers@.len() - i,
        {
            assert(self@[i as int] == (self.peers@[i as int].0@, self.peers@[i as int].1));
            if same_text(self.peers[i].0.as_str(), url) {
                return Some(i);
            }
            i = i + 1;
        }
        None
    }

    /// Takes note of a node, in the place of any with the same address.
    pub fn insert(&mut self, url: &str, id: u128)
        requires
            old(self).wf(),
        ensures
            final(self).wf(),
            final(self)@ == with_peer(old(self)@, url@, id),
    {
        proof {
            peer_found(self@, url@, 0);
        }
        match self.find(url) {
            Some(i) => {
                self.peers.set(i, (url.to_owned(), id));
                proof {
                    assert(self@ =~= old(self)@.update(i as int, (url@, id)));
                }
            },
            None => {
                self.peers.push((url.to_owned(), id));
                proof {
                    assert(self@ =~= old(self)@.push((url@, id)));
                }
            },
        }
    }

    /// Takes note of a node that another node told of, and says whether its address was new. An
    /// address that is already known keeps its identifier.
    pub fn learn(&mut self, url: &str, id: u128) -> (r: bool)
        requires
            old(self).wf(),
        ensures
            final(self).wf(),
            r == peer_at(old(self)@, url@).is_none(),
            final(self)@ == if r {
                old(self)@.push((url@, id))
            } else {
                old(self)@
            },
    {
        if self.find(url).is_some() {
            return false;
        }
        self.insert(url, id);
        true
    }

    /// The nodes with another address than `url`.
    pub fn others(&self, url: &str) -> (r: Vec<(String, u128)>)
        ensures
            peer_views(r@) == peers_but(self@, url@),
    {
        let ghost views = self@;
        let mut r: Vec<(String, u128)> = Vec::new();
        let mut i: usize = 0;
        proof {
            assert(peer_views(r@) =~= peers_but(views.take(0), url@));
        }
        while i < self.peers.len()
            invariant
                i <= self.peers@.len(),
                views == self@,
                peer_views(r@) == peers_but(views.take(i as int), url@),
            decreases self.peers@.len() - i,
        {
            let ghost one = (self.peers@[i as int].0@, self.peers@[i as int].1);
            proof {
                assert(views.take(i + 1).drop_last() =~= views.take(i as int));
                assert(views.take(i + 1).last() == one);
            }
            if !same_text(self.peers[i].0.as_str(), url) {
                let ghost before = r@;
                r.push((self.peers[i].0.clone(), self.peers[i].1));
                proof {
                    assert(peer_views(r@) =~= peer_views(before).push(one));
                }
            }
            i = i + 1;
        }
        proof {
            assert(views.take(i as int) =~= views);
        }
        r
    }

    /// The addresses of all nodes.
    pub fn addresses(&self) -> (r: Vec<String>)
        ensures
            texts(r@) == self@.map_values(|p: (Seq<char>, u128)| p.0),
    {
        let mut r: Vec<String> = Vec::new();
        let mut i: usize = 0;
        while i < self.peers.len()
            invariant
                i <= self.peers@.len(),
                r@.len() == i,
                forall|k: int| 0 <= k < i ==> (#[trigger] r@[k])@ == self.peers@[k].0@,
            decreases self.peers@.len() - i,
        {
            r.push(self.peers[i].0.clone());
            i = i + 1;
        }
        proof {
            assert(texts(r@) =~= self@.map_values(|p: (Seq<char>, u128)| p.0));
        }
        r
    }
}

/// A node that was taken note of is known, under the identifier that it gave; what is known of
/// other addresses stays.
pub proof fn noted_peer_is_known(
    peers: Seq<(Seq<char>, u128)>,
    url: Seq<char>,
    id: u128,
    other: Seq<char>,
)
    ensures
        with_peer(peers, url, id).contains((url, id)),
        forall|k: u128|
            other != url && peers.contains((other, k)) ==> #[trigger] with_peer(
                peers,
                url,
                id,
            ).contains((other, k)),
{
    peer_found(peers, url, 0);
    let all = with_peer(peers, url, id);
    match peer_at(peers, url) {
        Some(i) => {
            assert(all[i] == (url, id));
        },
        None => {
            assert(all[peers.len() as int] == (url, id));
        },
    }
    assert forall|k: u128| other != url && peers.contains((other, k)) implies #[trigger]
        all.contains((other, k)) by {
        let j = choose|j: int| 0 <= j < peers.len() && peers[j] == (other, k);
        assert(all[j] == (other, k));
    }
}

/// A node that registers is told of every other node, and never of itself.
pub proof fn others_are_all_but_one(
    peers: Seq<(Seq<char>, u128)>,
    url: Seq<char>,
    p: (Seq<char>, u128),
)
    ensures
        peers_but(peers, url).contains(p) <==> peers.contains(p) && p.0 != url,
    decreases peers.len(),
{
    if peers.len() > 0 {
        let front = peers.drop_last();
        others_are_all_but_one(front, url, p);
        let short = peers_but(front, url);
        let all = peers_but(peers, url);
        if all.contains(p) {
            let i = choose|i: int| 0 <= i < all.len() && all[i] == p;
            if i < short.len() {
                assert(short[i] == p);
                let j = choose|j: int| 0 <= j < front.len() && front[j] == p;
                assert(peers[j] == p);
            } else {
                assert(peers[peers.len() - 1] == p);
            }
        }
        if peers.contains(p) && p.0 != url {
            let j = choose|j: int| 0 <= j < peers.len() && peers[j] == p;
            if j < front.len() {
                assert(front[j] == p);
                let i = choose|i: int| 0 <= i < short.len() && short[i] == p;
                assert(all[i] == p);
            } else {
                assert(all[short.len() as int] == p);
            }
        }
    }
}

/// What is read of an address on the net.
pub struct UrlParts {
    pub scheme: String,
    pub host: Option<String>,
}

/// What `str::parse` into a `Url` reads: `None` where it refuses the text, and otherwise what
/// `Url::scheme` and `Url::host_str` then give.
pub uninterp spec fn parsed_url(s: Seq<char>) -> Option<(Seq<char>, Option<Seq<char>>)>;

/// What is read of an address, as a mathematical value.
pub open spec fn parts_view(p: Option<UrlParts>) -> Option<(Seq<char>, Option<Seq<char>>)> {
    match p {
        Some(x) => Some((x.scheme@, crate::text::optional_text(x.host))),
        None => None,
    }
}

/// Reads an address with `str::parse` into a `Url`, and takes its scheme and its host.
#[verifier::external_body]
fn parse_url(s: &str) -> (r: Option<UrlParts>)
    ensures
        parts_view(r) == parsed_url(s@),
{
    s.parse::<reqwest::Url>().ok().map(
        |u| UrlParts {
            scheme: u.scheme().to_owned(),
            host: u.host_str().map(|h| h.to_owned()),
        },
    )
}

/// Why an address is refused.
#[derive(Debug)]
pub enum UrlError {
    /// It is no address.
    Invalid,
    /// Its scheme is neither `http` nor `https`.
    Scheme(String),
    /// Its host is a name of the machine itself.
    InternalHost,
    /// Its host is an address of the machine itself or of a private network.
    PrivateAddress,
}

/// Why an address is refused, as a mathematical value.
#[verifier::ext_equal]
pub enum UrlFault {
    Invalid,
    Scheme(Seq<char>),
    InternalHost,
    PrivateAddress,
}

impl View for UrlError {
    type V = UrlFault;

    open spec fn view(&self) -> UrlFault {
        match self {
            UrlError::Invalid => UrlFault::Invalid,
            UrlError::Scheme(s) => UrlFault::Scheme(s@),
            UrlError::InternalHost => UrlFault::InternalHost,
            UrlError::PrivateAddress => UrlFault::PrivateAddress,
        }
    }
}

/// What is said of a refused address.
pub open spec fn fault_text(f: UrlFault) -> Seq<char> {
    match f {
        UrlFault::Invalid => "invalid URL"@,
        UrlFault::Scheme(s) => "scheme '"@ + s + "' not allowed"@,
        UrlFault::InternalHost => "internal host not allowed"@,
        UrlFault::PrivateAddress => "private/internal IP not allowed"@,
    }
}

impl UrlError {
    /// What is said of a refused address.
    pub fn message(&self) -> (r: String)
        ensures
            r@ == fault_text(self@),
    {
        match self {
            UrlError::Invalid => "invalid URL".to_owned(),
            UrlError::Scheme(s) => {
                let start: String = joined("scheme '", s.as_str());
                joined(start.as_str(), "' not allowed")
            },
            UrlError::InternalHost => "internal host not allowed".to_owned(),
            UrlError::PrivateAddress => "private/internal IP not allowed".to_owned(),
        }
    }
}

/// Why an address is refused, if it is: by what was read of it, by its host in lower case, and
/// by whether the host stands for an internal numeric address.
pub open spec fn url_fault(
    parts: Option<(Seq<char>, Option<Seq<char>>)>,
    host: Seq<char>,
    internal: bool,
) -> Option<UrlFault> {
    match parts {
        None => Some(UrlFault::Invalid),
        Some((scheme, _)) => if scheme != "http"@ && scheme != "https"@ {
            Some(UrlFault::Scheme(scheme))
        } else if host == "localhost"@ || host == "ip6-localhost"@ {
            Some(UrlFault::InternalHost)
        } else if internal {
            Some(UrlFault::PrivateAddress)
        } else {
            None
        },
    }
}

/// An outcome agrees with a fault.
pub open spec fn is_verdict(r: Result<(), UrlError>, fault: Option<UrlFault>) -> bool {
    match r {
        Ok(_) => fault is None,
        Err(e) => fault == Some(e@),
    }
}

/// Judges an address by what was read of it, by its host in lower case, and by the numeric
/// address that the host stands for, where it does.
pub fn judge_url(parts: &Option<UrlParts>, host: &str, address: &Option<HostAddress>) -> (r: Result<
    (),
    UrlError,
>)
    ensures
        is_verdict(
            r,
            url_fault(parts_view(*parts), host@, *address matches Some(a) && is_internal(a)),
        ),
{
    let scheme = match parts {
        Some(p) => p.scheme.as_str(),
        None => {
            return Err(UrlError::Invalid);
        },
    };
    if !same_text(scheme, "http") && !same_text(scheme, "https") {
        return Err(UrlError::Scheme(scheme.to_owned()));
    }
    if same_text(host, "localhost") || same_text(host, "ip6-localhost") {
        return Err(UrlError::InternalHost);
    }
    if let Some(a) = address {
        if is_internal_address(a) {
            return Err(UrlError::PrivateAddress);
        }
    }
    Ok(())
}

/// The host of an address, in lower case: empty, where there is none.
pub open spec fn host_in(parts: Option<(Seq<char>, Option<Seq<char>>)>) -> Seq<char> {
    match parts {
        Some((_, Some(h))) => lowercase(h),
        _ => lowercase(Seq::empty()),
    }
}

fn lower_host(parts: &Option<UrlParts>) -> (r: String)
    ensures
        r@ == host_in(parts_view(*parts)),
{
    match parts {
        Some(p) => match &p.host {
            Some(h) => to_lower(h.as_str()),
            None => {
                let none: String = String::new();
                to_lower(none.as_str())
            },
        },
        None => {
            let none: String = String::new();
            to_lower(none.as_str())
        },
    }
}

/// The host of an address, in lower case.
pub fn host_of(url: &str) -> (r: String)
    ensures
        r@ == host_in(parsed_url(url@)),
{
    let parts = parse_url(url);
    lower_host(&parts)
}

/// Why the address that a text holds is refused, if it is.
pub open spec fn text_fault(url: Seq<char>) -> Option<UrlFault> {
    let parts = parsed_url(url);
    url_fault(parts, host_in(parts), internal_host(host_in(parts)))
}

/// Reads an address, and judges it.
pub fn validate_external_url(url: &str) -> (r: Result<(), UrlError>)
    ensures
        is_verdict(r, text_fault(url@)),
{
    let parts = parse_url(url);
    let host: String = lower_host(&parts);
    let address = read_host(host.as_str());
    judge_url(&parts, host.as_str(), &address)
}

/// The address under which a node is taken note of: without the slashes at its end.
pub fn peer_address(url: &str) -> (r: String)
    ensures
        r@ == without_end(url@, '/'),
{
    trim_end(url, '/')
}

/// Registers a node that announces itself under the address `url`. The answer tells of all the
/// other nodes. Nothing happens where the address is refused.
pub fn register_peer(book: &mut PeerBook, url: &str, id: u128) -> (r: Option<Vec<(String, u128)>>)
    requires
        old(book).wf(),
    ensures
        final(book).wf(),
        ({
            let own = without_end(url@, '/');
            match text_fault(own) {
                Some(_) => r is None && final(book)@ == old(book)@,
                None => final(book)@ == with_peer(old(book)@, own, id) && (r matches Some(others)
                    && peer_views(others@) == peers_but(final(book)@, own)),
            }
        }),
{
    let own: String = peer_address(url);
    let refused: bool = validate_external_url(own.as_str()).is_err();
    settle_peer(book, own.as_str(), id, refused)
}

/// Takes note of a node under its own address, unless it is refused, and tells of all the others.
pub fn settle_peer(book: &mut PeerBook, own: &str, id: u128, refused: bool) -> (r: Option<
    Vec<(String, u128)>,
>)
    requires
        old(book).wf(),
    ensures
        final(book).wf(),
        if refused {
            r is None && final(book)@ == old(book)@
        } else {
            final(book)@ == with_peer(old(book)@, own@, id) && (r matches Some(others)
                && peer_views(others@) == peers_but(final(book)@, own@))
        },
{
    if refused {
        return None;
    }
    book.insert(own, id);
    Some(book.others(own))
}

/// A node with a public address announces itself, unless it is the one that all know.
pub fn announces_itself(node_url: &str) -> (r: bool)
    ensures
        r == (node_url@.len() > 0 && !has_part(node_url@, BOOTSTRAP_HOST@)),
{
    !node_url.is_empty() && !contains_part(node_url, BOOTSTRAP_HOST)
}

/// A node takes the node that all know as a peer, unless it is that node itself. A node without
/// a public address does, too: nobody sees it, but it hears the news.
pub fn follows_bootstrap(bootstrap: &str, node_url: &str) -> (r: bool)
    ensures
        r == (node_url@.len() == 0 || !has_part(bootstrap@, without_end(node_url@, '/'))),
{
    node_url.is_empty() || !contains_part(bootstrap, trim_end(node_url, '/').as_str())
}

/// An entity that is shared with other nodes: neither one that came from a gathering here, nor
/// a wanderer.
pub open spec fn shared(e: EntityView) -> bool {
    !is_convergence(e.label) && !has_prefix(e.label, "wanderer_"@)
}

/// The entities that are shared.
pub open spec fn shared_entities(nodes: Seq<EntityView>) -> Seq<EntityView>
    decreases nodes.len(),
{
    if nodes.len() == 0 {
        Seq::empty()
    } else if shared(nodes.last()) {
        shared_entities(nodes.drop_last()).push(nodes.last())
    } else {
        shared_entities(nodes.drop_last())
    }
}

/// The entities that are shared with other nodes.
pub fn export_entities(graph: &SpaceGraph) -> (r: Vec<Entity>)
    requires
        graph.wf(),
    ensures
        entity_views(r@) == shared_entities(graph.nodes()),
{
    let ghost nodes = graph.nodes();
    let n: usize = graph.entity_count();
    let mut r: Vec<Entity> = Vec::new();
    let mut i: usize = 0;
    proof {
        assert(entity_views(r@) =~= shared_entities(nodes.take(0)));
    }
    while i < n
        invariant
            i <= n,
            n == nodes.len(),
            graph.wf(),
            nodes == graph.nodes(),
            entity_views(r@) == shared_entities(nodes.take(i as int)),
        decreases n - i,
    {
        proof {
            assert(nodes.take(i + 1).drop_last() =~= nodes.take(i as int));
            assert(nodes.take(i + 1).last() == nodes[i as int]);
        }
        let e = graph.entity_at(i);
        if !ends_with(e.label.as_str(), "·convergence") && !starts_with(
            e.label.as_str(),
            "wanderer_",
        ) {
            let ghost before = r@;
            r.push(e.clone());
            proof {
                assert(entity_views(r@) =~= entity_views(before).push(e@));
            }
        }
        i = i + 1;
    }
    proof {
        assert(nodes.take(i as int) =~= nodes);
    }
    r
}

/// What is shared is exactly what may be: nothing that came from a gathering here and no
/// wanderer leaves the node, and everything else does.
pub proof fn sharing_is_exact(nodes: Seq<EntityView>, e: EntityView)
    ensures
        shared_entities(nodes).contains(e) <==> nodes.contains(e) && shared(e),
    decreases nodes.len(),
{
    if nodes.len() > 0 {
        let front = nodes.drop_last();
        sharing_is_exact(front, e);
        let short = shared_entities(front);
        let all = shared_entities(nodes);
        if all.contains(e) {
            let i = choose|i: int| 0 <= i < all.len() && all[i] == e;
            if i < short.len() {
                assert(short[i] == e);
                let j = choose|j: int| 0 <= j < front.len() && front[j] == e;
                assert(nodes[j] == e);
            } else {
                assert(nodes[nodes.len() - 1] == e);
            }
        }
        if nodes.contains(e) && shared(e) {
            let j = choose|j: int| 0 <= j < nodes.len() && nodes[j] == e;
            if j < front.len() {
                assert(front[j] == e);
                let i = choose|i: int| 0 <= i < short.len() && short[i] == e;
                assert(all[i] == e);
            } else {
                assert(all[short.len() as int] == e);
            }
        }
    }
}

/// The entities after another node has told of `remote`: it is new, or it brings news of the one
/// that bears the same label, or there is nothing new about it.
pub open spec fn imported(nodes: Seq<EntityView>, remote: EntityView) -> Seq<EntityView> {
    match labelled(nodes, remote.label) {
        None => nodes.push(remote),
        Some(i) => if nodes[i].last_active.precedes(remote.last_active) {
            nodes.update(
                i,
                EntityView {
                    activity_vec: remote.activity_vec,
                    last_active: remote.last_active,
                    ..nodes[i]
                },
            )
        } else {
            nodes
        },
    }
}

/// What came of something that another node told of, and the index of the entity.
#[derive(Clone, Copy, Debug, PartialEq, Eq, Structural)]
pub enum Import {
    Added(usize),
    Refreshed(usize),
    Kept(usize),
}

/// What comes of something that another node tells of.
pub open spec fn import_outcome(nodes: Seq<EntityView>, remote: EntityView) -> Import {
    match labelled(nodes, remote.label) {
        None => Import::Added(nodes.len() as usize),
        Some(i) => if nodes[i].last_active.precedes(remote.last_active) {
            Import::Refreshed(i as usize)
        } else {
            Import::Kept(i as usize)
        },
    }
}

/// Takes over an entity that another node told of.
pub fn import_entity(graph: &mut SpaceGraph, remote: Entity) -> (r: Import)
    requires
        old(graph).wf(),
        old(graph).nodes().len() < u32::MAX,
    ensures
        final(graph).wf(),
        r == import_outcome(old(graph).nodes(), remote@),
        final(graph).nodes() == imported(old(graph).nodes(), remote@),
        final(graph).edges() == old(graph).edges(),
        final(graph).index() == match r {
            Import::Added(i) => old(graph).index().insert(remote.id, i),
            _ => old(graph).index(),
        },
{
    let ghost nodes = graph.nodes();
    proof {
        label_found(nodes, remote@.label, 0);
    }
    match graph.find_label(remote.label.as_str()) {
        None => {
            let i: usize = graph.add_entity(remote);
            Import::Added(i)
        },
        Some(i) => {
            let mut e: Entity = graph.entity_at(i).clone();
            if e.last_active.is_before(&remote.last_active) {
                e.activity_vec = remote.activity_vec;
                e.last_active = remote.last_active;
                graph.put(i, e);
                Import::Refreshed(i)
            } else {
                Import::Kept(i)
            }
        },
    }
}

/// Where labels are unique, they stay so, whatever other nodes tell of.
pub proof fn import_keeps_labels_unique(nodes: Seq<EntityView>, remote: EntityView)
    requires
        distinct_labels(nodes),
    ensures
        distinct_labels(imported(nodes, remote)),
{
    label_found(nodes, remote.label, 0);
    let all = imported(nodes, remote);
    assert forall|i: int, j: int| 0 <= i < j < all.len() implies (#[trigger] all[i]).label != (
    #[trigger] all[j]).label by {
        if j < nodes.len() {
            assert(all[i].label == nodes[i].label);
            assert(all[j].label == nodes[j].label);
        } else {
            assert(all[i] == nodes[i]);
        }
    }
}

proof fn labels_decide(a: Seq<EntityView>, b: Seq<EntityView>, label: Seq<char>, from: int)
    requires
        0 <= from <= a.len() == b.len(),
        forall|i: int| 0 <= i < a.len() ==> (#[trigger] a[i]).label == b[i].label,
    ensures
        labelled_from(a, label, from) == labelled_from(b, label, from),
    decreases a.len() - from,
{
    if from < a.len() {
        assert(a[from].label == b[from].label);
        labels_decide(a, b, label, from + 1);
    }
}

proof fn pushed_is_found(nodes: Seq<EntityView>, e: EntityView, from: int)
    requires
        0 <= from <= nodes.len(),
        forall|i: int| 0 <= i < nodes.len() ==> (#[trigger] nodes[i]).label != e.label,
    ensures
        labelled_from(nodes.push(e), e.label, from) == Some(nodes.len() as int),
    decreases nodes.len() - from,
{
    if from < nodes.len() {
        assert(nodes.push(e)[from] == nodes[from]);
        pushed_is_found(nodes, e, from + 1);
    }
}

/// Once another node has told of `remote`, an entity bears its label, and that entity was last
/// active when either of the two was, whichever is later: the newest news wins.
pub proof fn newest_news_wins(nodes: Seq<EntityView>, remote: EntityView)
    ensures
        labelled(imported(nodes, remote), remote.label) matches Some(i) && {
            let e = imported(nodes, remote)[i];
            &&& 0 <= i < imported(nodes, remote).len()
            &&& e.label == remote.label
            &&& !e.last_active.precedes(remote.last_active)
            &&& labelled(nodes, remote.label) matches Some(j) ==> j == i
                && !e.last_active.precedes(nodes[j].last_active) && (e.last_active
                == nodes[j].last_active || e.last_active == remote.last_active) && e.embedding
                == nodes[j].embedding && e.id == nodes[j].id
            &&& labelled(nodes, remote.label) is None ==> e == remote
        },
{
    label_found(nodes, remote.label, 0);
    let all = imported(nodes, remote);
    match labelled(nodes, remote.label) {
        None => {
            pushed_is_found(nodes, remote, 0);
        },
        Some(j) => {
            labels_decide(nodes, all, remote.label, 0);
        },
    }
}

/// Hearing the same news again changes nothing.
pub proof fn import_is_idempotent(nodes: Seq<EntityView>, remote: EntityView)
    ensures
        imported(imported(nodes, remote), remote) == imported(nodes, remote),
{
    newest_news_wins(nodes, remote);
}

/// What other nodes tell of never takes an entity away, and never changes what it means, what it
/// is called or who it is.
pub proof fn import_keeps_entities(nodes: Seq<EntityView>, remote: EntityView)
    ensures
        imported(nodes, remote).len() >= nodes.len(),
        forall|i: int|
            0 <= i < nodes.len() ==> (#[trigger] imported(nodes, remote)[i]).id == nodes[i].id
                && imported(nodes, remote)[i].label == nodes[i].label && imported(
                nodes,
                remote,
            )[i].embedding == nodes[i].embedding && imported(nodes, remote)[i].kind
                == nodes[i].kind && imported(nodes, remote)[i].expires_at == nodes[i].expires_at,
{
    label_found(nodes, remote.label, 0);
}

/// The order in which two nodes tell of the same label does not matter to when its entity was
/// last active.
pub proof fn import_order_is_no_matter(nodes: Seq<EntityView>, a: EntityView, b: EntityView)
    requires
        a.label == b.label,
    ensures
        ({
            let ab = imported(imported(nodes, a), b);
            let ba = imported(imported(nodes, b), a);
            let i = labelled(ab, a.label);
            &&& i is Some
            &&& i == labelled(ba, a.label)
            &&& ab[i->0].last_active == ba[i->0].last_active
        }),
{
    newest_news_wins(nodes, a);
    newest_news_wins(nodes, b);
    newest_news_wins(imported(nodes, a), b);
    newest_news_wins(imported(nodes, b), a);
    label_found(nodes, a.label, 0);
    if labelled(nodes, a.label) is None {
        pushed_is_found(nodes, a, 0);
        pushed_is_found(nodes, b, 0);
    }
}

/// The identifiers of the entities whose time is up.
pub open spec fn expired(nodes: Seq<EntityView>, at: Timestamp) -> Seq<u128>
    decreases nodes.len(),
{
    if nodes.len() == 0 {
        Seq::empty()
    } else if alive(nodes.last(), at) {
        expired(nodes.drop_last(), at)
    } else {
        expired(nodes.drop_last(), at).push(nodes.last().id)
    }
}

/// The identifiers of the entities whose time is up.
pub fn expired_entities(graph: &SpaceGraph, at: Timestamp) -> (r: Vec<u128>)
    requires
        graph.wf(),
    ensures
        r@ == expired(graph.nodes(), at),
{
    let ghost nodes = graph.nodes();
    let n: usize = graph.entity_count();
    let mut r: Vec<u128> = Vec::new();
    let mut i: usize = 0;
    while i < n
        invariant
            i <= n,
            n == nodes.len(),
            graph.wf(),
            nodes == graph.nodes(),
            r@ == expired(nodes.take(i as int), at),
        decreases n - i,
    {
        proof {
            assert(nodes.take(i + 1).drop_last() =~= nodes.take(i as int));
            assert(nodes.take(i + 1).last() == nodes[i as int]);
        }
        let e = graph.entity_at(i);
        if let Some(t) = e.expires_at {
            if !at.is_before(&t) {
                r.push(e.id);
            }
        }
        i = i + 1;
    }
    proof {
        assert(nodes.take(i as int) =~= nodes);
    }
    r
}

/// An entity is listed for removal just when it is no longer alive; one without an end never is.
pub proof fn expiry_is_exact(nodes: Seq<EntityView>, at: Timestamp, id: u128)
    ensures
        expired(nodes, at).contains(id) <==> exists|i: int|
            0 <= i < nodes.len() && (#[trigger] nodes[i]).id == id && !alive(nodes[i], at),
    decreases nodes.len(),
{
    if nodes.len() > 0 {
        let front = nodes.drop_last();
        expiry_is_exact(front, at, id);
        let short = expired(front, at);
        let all = expired(nodes, at);
        if all.contains(id) {
            let k = choose|k: int| 0 <= k < all.len() && all[k] == id;
            if k < short.len() {
                assert(short[k] == id);
                let i = choose|i: int|
                    0 <= i < front.len() && (#[trigger] front[i]).id == id && !alive(front[i], at);
                assert(nodes[i].id == id);
            } else {
                assert(nodes[nodes.len() - 1].id == id);
            }
        }
        if exists|i: int|
            0 <= i < nodes.len() && (#[trigger] nodes[i]).id == id && !alive(nodes[i], at) {
            let i = choose|i: int|
                0 <= i < nodes.len() && (#[trigger] nodes[i]).id == id && !alive(nodes[i], at);
            if i < front.len() {
                assert(front[i].id == id);
                let k = choose|k: int| 0 <= k < short.len() && short[k] == id;
                assert(all[k] == id);
            } else {
                assert(all[short.len() as int] == id);
            }
        }
    }
}

/// The space `now` is the space `before` without the entities that `gone` names: every other
/// known identifier still leads to the same entity, the same relations join them, and as many
/// entities left as identifiers were given up.
pub open spec fn rid_of(before: SpaceGraph, now: SpaceGraph, gone: Seq<u128>) -> bool {
    &&& forall|k: u128| #[trigger]
        now.index().contains_key(k) <==> before.index().contains_key(k) && !gone.contains(k)
    &&& forall|k: u128| #[trigger]
        now.index().contains_key(k) ==> now.nodes()[now.index()[k] as int]
            == before.nodes()[before.index()[k] as int]
    &&& forall|k: u128, l: u128, r: Relation|
        now.index().contains_key(k) && now.index().contains_key(l) ==> #[trigger] now.edges().count(
            (now.index()[k], now.index()[l], r),
        ) == before.edges().count((before.index()[k], before.index()[l], r))
    &&& before.nodes().len() - now.nodes().len() == before.index().dom().len()
        - now.index().dom().len()
}

/// The entities of a space and where their identifiers lead, once the entities that `gone` names
/// have been taken out in turn.
pub open spec fn swept(
    nodes: Seq<EntityView>,
    index: Map<u128, usize>,
    gone: Seq<u128>,
) -> (Seq<EntityView>, Map<u128, usize>)
    decreases gone.len(),
{
    if gone.len() == 0 {
        (nodes, index)
    } else {
        let (n, x) = swept(nodes, index, gone.drop_last());
        if x.contains_key(gone.last()) {
            (swap_removed(n, x[gone.last()] as int), reindexed(x, n, gone.last()))
        } else {
            (n, x)
        }
    }
}

/// Takes every entity out of the space whose time is up, and says which.
pub fn sweep(graph: &mut SpaceGraph, at: Timestamp) -> (r: Vec<u128>)
    requires
        old(graph).wf(),
    ensures
        final(graph).wf(),
        r@ == expired(old(graph).nodes(), at),
        (final(graph).nodes(), final(graph).index()) == swept(
            old(graph).nodes(),
            old(graph).index(),
            r@,
        ),
        rid_of(*old(graph), *final(graph), r@),
{
    let r = expired_entities(graph, at);
    let ghost before = *graph;
    let mut i: usize = 0;
    while i < r.len()
        invariant
            i <= r@.len(),
            before.wf(),
            graph.wf(),
            (graph.nodes(), graph.index()) == swept(
                before.nodes(),
                before.index(),
                r@.take(i as int),
            ),
            rid_of(before, *graph, r@.take(i as int)),
        decreases r@.len() - i,
    {
        let ghost mid = *graph;
        let id: u128 = r[i];
        graph.remove_entity(&id);
        proof {
            let gone = r@.take(i as int);
            let more = r@.take(i + 1);
            assert(more =~= gone.push(id));
            assert(more.drop_last() =~= gone);
            assert forall|k: u128| more.contains(k) <==> gone.contains(k) || k == id by {
                if gone.contains(k) {
                    let j = choose|j: int| 0 <= j < gone.len() && gone[j] == k;
                    assert(more[j] == k);
                }
                assert(more[i as int] == id);
            }
            removed_further(before, mid, *graph, gone, more, id);
        }
        i = i + 1;
    }
    proof {
        assert(r@.take(i as int) =~= r@);
    }
    r
}

proof fn removed_further(
    before: SpaceGraph,
    mid: SpaceGraph,
    now: SpaceGraph,
    gone: Seq<u128>,
    more: Seq<u128>,
    id: u128,
)
    requires
        before.wf(),
        mid.wf(),
        rid_of(before, mid, gone),
        forall|k: u128| #[trigger] more.contains(k) <==> gone.contains(k) || k == id,
        !mid.index().contains_key(id) ==> now.nodes() == mid.nodes() && now.edges() == mid.edges()
            && now.index() == mid.index(),
        mid.index().contains_key(id) ==> {
            let i = mid.index()[id];
            let last = (mid.nodes().len() - 1) as usize;
            &&& now.nodes() == swap_removed(mid.nodes(), i as int)
            &&& now.index() == reindexed(mid.index(), mid.nodes(), id)
            &&& forall|a: usize, b: usize, x: Relation| #[trigger]
                now.edges().count((a, b, x)) == edges_after_removal(mid.edges(), i, last, a, b, x)
        },
    ensures
        rid_of(before, now, more),
{
    if mid.index().contains_key(id) {
        let any = Relation { weight: 0 };
        let (was, is) = (mid.index(), now.index());
        assert forall|k: u128| #[trigger] is.contains_key(k) implies was.contains_key(k) && k != id
            && now.nodes()[is[k] as int] == mid.nodes()[was[k] as int] by {
            removal_keeps_others(was, mid.nodes(), mid.edges(), id, k, k, any);
        }
        assert forall|k: u128| was.contains_key(k) && k != id implies #[trigger] is.contains_key(
            k,
        ) by {
            removal_keeps_others(was, mid.nodes(), mid.edges(), id, k, k, any);
        }
        assert forall|k: u128, l: u128, r: Relation|
            is.contains_key(k) && is.contains_key(l) implies #[trigger] now.edges().count(
            (is[k], is[l], r),
        ) == before.edges().count((before.index()[k], before.index()[l], r)) by {
            assert(mid.index().contains_key(k) && mid.index().contains_key(l));
            removal_keeps_others(mid.index(), mid.nodes(), mid.edges(), id, k, l, r);
            assert(mid.edges().count((mid.index()[k], mid.index()[l], r)) == before.edges().count(
                (before.index()[k], before.index()[l], r),
            ));
        }
        assert(now.index().dom() =~= mid.index().dom().remove(id));
    }
}

/// After a sweep, no known identifier leads to an entity whose time is up.
pub proof fn swept_space_is_alive(before: SpaceGraph, now: SpaceGraph, at: Timestamp, k: u128)
    requires
        before.wf(),
        rid_of(before, now, expired(before.nodes(), at)),
        now.index().contains_key(k),
    ensures
        alive(now.nodes()[now.index()[k] as int], at),
{
    expiry_is_exact(before.nodes(), at, k);
    assert(before.index().contains_key(k));
}

/// Once a node was taken note of, the nodes that are known are that one, under the identifier
/// that it gave, and all others as before, in their places.
pub proof fn noting_changes_one_peer(peers: Seq<(Seq<char>, u128)>, url: Seq<char>, id: u128)
    requires
        distinct_peers(peers),
    ensures
        ({
            let all = with_peer(peers, url, id);
            let known = exists|i: int| 0 <= i < peers.len() && (#[trigger] peers[i]).0 == url;
            &&& distinct_peers(all)
            &&& all.len() == if known {
                peers.len()
            } else {
                peers.len() + 1
            }
            &&& !known ==> all.last() == (url, id)
            &&& forall|i: int|
                0 <= i < peers.len() ==> #[trigger] all[i] == if peers[i].0 == url {
                    (url, id)
                } else {
                    peers[i]
                }
        }),
{
    peer_found(peers, url, 0);
}

/// Of a list of addresses and identifiers, each address is known once, under the identifier that
/// came last.
pub proof fn the_last_word_counts(all: Seq<(Seq<char>, u128)>, url: Seq<char>, id: u128)
    ensures
        distinct_peers(settled_peers(all)),
        settled_peers(all).contains((url, id)) <==> exists|i: int|
            0 <= i < all.len() && #[trigger] all[i] == (url, id) && forall|j: int|
                i < j < all.len() ==> (#[trigger] all[j]).0 != url,
    decreases all.len(),
{
    if all.len() > 0 {
        let front = all.drop_last();
        let (u, k) = all.last();
        the_last_word_counts(front, url, id);
        let short = settled_peers(front);
        let r = settled_peers(all);
        noting_changes_one_peer(short, u, k);
        noted_peer_is_known(short, u, k, url);
        if r.contains((url, id)) {
            let p = choose|p: int| 0 <= p < r.len() && r[p] == (url, id);
            if url == u {
                if p < short.len() {
                    assert(r[p] == (u, k));
                }
                assert(all[all.len() - 1] == (url, id));
            } else {
                assert(p < short.len() && short[p] == (url, id));
                let i = choose|i: int|
                    0 <= i < front.len() && #[trigger] front[i] == (url, id) && forall|j: int|
                        i < j < front.len() ==> (#[trigger] front[j]).0 != url;
                assert(all[i] == (url, id));
                assert forall|j: int| i < j < all.len() implies (#[trigger] all[j]).0 != url by {
                    if j < front.len() {
                        assert(front[j].0 != url);
                    }
                }
            }
        }
        if exists|i: int|
            0 <= i < all.len() && #[trigger] all[i] == (url, id) && forall|j: int|
                i < j < all.len() ==> (#[trigger] all[j]).0 != url {
            let i = choose|i: int|
                0 <= i < all.len() && #[trigger] all[i] == (url, id) && forall|j: int|
                    i < j < all.len() ==> (#[trigger] all[j]).0 != url;
            if i < front.len() {
                assert(all[all.len() - 1].0 != url);
                assert(front[i] == (url, id));
                assert forall|j: int| i < j < front.len() implies (#[trigger] front[j]).0
                    != url by {
                    assert(all[j].0 != url);
                }
                assert(short.contains((url, id)));
            }
        }
    }
}

/// Whoever registers is told of all the others, in the order in which they are known.
pub proof fn all_others_are_told_of(peers: Seq<(Seq<char>, u128)>, url: Seq<char>)
    ensures
        peers_but(peers, url) == peers.filter(|p: (Seq<char>, u128)| p.0 != url),
    decreases peers.len(),
{
    reveal(Seq::filter);
    if peers.len() > 0 {
        all_others_are_told_of(peers.drop_last(), url);
    }
}

/// An address passes just when it can be read, is one of the web, and leads neither to a name of
/// the machine itself nor to an internal numeric address; what is wrong first is what it is
/// refused for.
pub proof fn only_outside_web_addresses_pass(
    parts: Option<(Seq<char>, Option<Seq<char>>)>,
    host: Seq<char>,
    internal: bool,
)
    ensures
        ({
            let web = parts is Some && ((parts->0).0 == "http"@ || (parts->0).0 == "https"@);
            let own = host == "localhost"@ || host == "ip6-localhost"@;
            let fault = url_fault(parts, host, internal);
            &&& fault is None <==> web && !own && !internal
            &&& fault == Some(UrlFault::Invalid) <==> parts is None
            &&& fault == Some(UrlFault::InternalHost) <==> web && own
            &&& fault == Some(UrlFault::PrivateAddress) <==> web && !own && internal
            &&& parts is Some && !web ==> fault == Some(UrlFault::Scheme((parts->0).0))
        }),
{
}

/// The host that is judged is that of the address in lower case, and an address without one has
/// the empty host.
pub proof fn the_host_is_judged_in_lower_case(scheme: Seq<char>, h: Seq<char>)
    ensures
        host_in(Some((scheme, Some(h)))) == lowercase(h),
        host_in(Some((scheme, None))) == lowercase(Seq::empty()),
        host_in(None) == lowercase(Seq::empty()),
{
}

/// An address whose host is written as four internal octets never passes.
pub proof fn internal_octets_never_pass(url: Seq<char>, o: Seq<u8>)
    requires
        o.len() == 4,
        internal_octets(o),
        host_in(parsed_url(url)) == dotted(o),
    ensures
        text_fault(url) is Some,
{
    assert(internal_host(dotted(o)));
}

/// What is shared depends on the label alone: of all entities, in their order, those whose label
/// neither ends in `·convergence` nor begins with `wanderer_`, whatever their kind, their end,
/// their vectors or their last activity.
pub proof fn sharing_goes_by_label(nodes: Seq<EntityView>)
    ensures
        shared_entities(nodes) == nodes.filter(
            |e: EntityView| !ends_in_convergence(e.label) && !begins_as_wanderer(e.label),
        ),
    decreases nodes.len(),
{
    reveal(Seq::filter);
    if nodes.len() > 0 {
        sharing_goes_by_label(nodes.drop_last());
        convergence_is_told_by_its_label(nodes.last().label);
        prefixes_begin(nodes.last().label, "wanderer_"@);
    }
}

/// Two entities with one label are either both shared or both not.
pub proof fn nothing_but_the_label_matters(e: EntityView, f: EntityView)
    requires
        e.label == f.label,
    ensures
        shared(e) == shared(f),
        shared(e) <==> !ends_in_convergence(e.label) && !begins_as_wanderer(e.label),
{
    convergence_is_told_by_its_label(e.label);
    prefixes_begin(e.label, "wanderer_"@);
}

/// News touch only the first entity that bears the label: when they are newer, it takes over what
/// has gathered and when, and nothing else; when they are not, nothing changes. Where no entity
/// bears the label, what was told of is added as it is.
pub proof fn news_touch_one_entity(nodes: Seq<EntityView>, remote: EntityView, i: int)
    requires
        0 <= i < nodes.len(),
    ensures
        ({
            let all = imported(nodes, remote);
            let first = nodes[i].label == remote.label && forall|j: int|
                0 <= j < i ==> (#[trigger] nodes[j]).label != remote.label;
            let newer = nodes[i].last_active.precedes(remote.last_active);
            &&& all[i] == if first && newer {
                EntityView {
                    activity_vec: remote.activity_vec,
                    last_active: remote.last_active,
                    ..nodes[i]
                }
            } else {
                nodes[i]
            }
            &&& first ==> all.len() == nodes.len()
            &&& first && nodes.len() <= usize::MAX ==> import_outcome(nodes, remote) == if newer {
                Import::Refreshed(i as usize)
            } else {
                Import::Kept(i as usize)
            }
        }),
{
    label_found(nodes, remote.label, 0);
}

/// What nobody here bears the label of is added behind all others.
pub proof fn strangers_are_added(nodes: Seq<EntityView>, remote: EntityView)
    requires
        forall|j: int| 0 <= j < nodes.len() ==> (#[trigger] nodes[j]).label != remote.label,
    ensures
        imported(nodes, remote) == nodes.push(remote),
        import_outcome(nodes, remote) == Import::Added(nodes.len() as usize),
{
    label_found(nodes, remote.label, 0);
}

proof fn expired_up_to(nodes: Seq<EntityView>, at: Timestamp, n: nat)
    requires
        n <= nodes.len(),
    ensures
        expired(nodes.take(n as int), at) == kept(
            n,
            |i: int| nodes[i].expires_at is Some && !at.precedes(nodes[i].expires_at->0),
            |i: int| nodes[i].id,
        ),
    decreases n,
{
    let keep = |i: int| nodes[i].expires_at is Some && !at.precedes(nodes[i].expires_at->0);
    let f = |i: int| nodes[i].id;
    kept_grows(n, keep, f);
    if n > 0 {
        expired_up_to(nodes, at, (n - 1) as nat);
        assert(nodes.take(n as int).drop_last() =~= nodes.take(n - 1));
    }
}

/// The entities whose time is up are those whose end is not still to come, all of them; one
/// without an end is never among them.
pub proof fn all_whose_end_has_come_expire(nodes: Seq<EntityView>, at: Timestamp)
    ensures
        expired(nodes, at) == kept(
            nodes.len(),
            |i: int| nodes[i].expires_at is Some && !at.precedes(nodes[i].expires_at->0),
            |i: int| nodes[i].id,
        ),
{
    assert(nodes.take(nodes.len() as int) =~= nodes);
    expired_up_to(nodes, at, nodes.len());
}

} // verus!
