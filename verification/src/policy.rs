//! The domain policy: which URLs a crawl may follow.

use url::Url;
use vstd::prelude::*;

verus! {

/// What the policy reads of a parsed URL: its host, if it has one.
pub struct ParsedUrl {
    pub host: Option<String>,
}

impl View for ParsedUrl {
    type V = Option<Seq<char>>;

    open spec fn view(&self) -> Option<Seq<char>> {
        match self.host {
            Some(h) => Some(h@),
            None => None,
        }
    }
}

/// The outcome of parsing `url` as an absolute URL: `None` where it does not
/// parse, else the host of the parsed URL, `Some(None)` where it has none.
pub uninterp spec fn parsed_host(url: Seq<char>) -> Option<Option<Seq<char>>>;

/// The view of a parsing outcome.
pub open spec fn outcome_view(parsed: Option<ParsedUrl>) -> Option<Option<Seq<char>>> {
    match parsed {
        Some(p) => Some(p@),
        None => None,
    }
}

/// Parses `url` with `url::Url::parse` and reads the host of the result
/// with `Url::host_str`.
///
/// Trusted: the parser is not verified. The contract only gives its outcome
/// the name `parsed_host`, which claims that the outcome depends on the
/// characters of `url` and on nothing else.
#[verifier::external_body]
fn parse_url(url: &str) -> (parsed: Option<ParsedUrl>)
    ensures
        outcome_view(parsed) == parsed_host(url@),
{
    match Url::parse(url) {
        Ok(u) => Some(ParsedUrl { host: u.host_str().map(String::from) }),
        Err(_) => None,
    }
}

/// The configuration of the policy: the hosts that may be followed, the
/// hosts that never may, and whether every host not on the blacklist may.
pub struct DomainPolicy {
    pub permitted: Vec<String>,
    pub blacklist: Vec<String>,
    pub free_crawl: bool,
}

/// Tells whether `item` occurs in `list`.
pub fn contains_name(list: &Vec<String>, item: &String) -> (found: bool)
    ensures
        found == list.deep_view().contains(item@),
{
    let mut i: usize = 0;
    while i < list.len()
        invariant
            i <= list.len(),
            forall|j: int| 0 <= j < i ==> list.deep_view()[j] != item@,
        decreases list.len() - i,
    {
        if list[i] == *item {
            assert(list.deep_view()[i as int] == item@);
            return true;
        }
        i += 1;
    }
    false
}

/// The links of a page, parted by the policy.
pub struct Sifted {
    /// The links that may be followed, in the order of the page.
    pub eligible: Vec<String>,
    /// The links that may not, in the order of the page.
    pub rejected: Vec<String>,
}

impl DomainPolicy {
    /// The permitted hosts, as a set.
    pub open spec fn permitted_hosts(&self) -> Set<Seq<char>> {
        self.permitted.deep_view().to_set()
    }

    /// The blacklisted hosts, as a set.
    pub open spec fn blacklisted_hosts(&self) -> Set<Seq<char>> {
        self.blacklist.deep_view().to_set()
    }

    /// The rule for a host: permitted, or any host in a free crawl, and in
    /// either case not blacklisted.
    pub open spec fn permits(&self, host: Seq<char>) -> bool {
        (self.free_crawl || self.permitted_hosts().contains(host))
            && !self.blacklisted_hosts().contains(host)
    }

    /// The rule for a parsing outcome: only a URL that parsed and has a host
    /// can be eligible, and it is if its host is permitted.
    pub open spec fn admits(&self, parsed: Option<Option<Seq<char>>>) -> bool {
        match parsed {
            Some(Some(host)) => self.permits(host),
            _ => false,
        }
    }

    /// The rule for a URL.
    pub open spec fn eligible_spec(&self, url: Seq<char>) -> bool {
        self.admits(parsed_host(url))
    }

    /// Those of `links` on which the policy says `verdict`, in their order.
    pub open spec fn kept(&self, links: Seq<Seq<char>>, verdict: bool) -> Seq<Seq<char>>
        decreases links.len(),
    {
        if links.len() == 0 {
            Seq::empty()
        } else {
            let earlier = self.kept(links.drop_last(), verdict);
            if self.eligible_spec(links.last()) == verdict {
                earlier.push(links.last())
            } else {
                earlier
            }
        }
    }

    /// A policy with the given lists and flag.
    pub fn new(permitted: Vec<String>, blacklist: Vec<String>, free_crawl: bool) -> (policy: Self)
        ensures
            policy.permitted == permitted,
            policy.blacklist == blacklist,
            policy.free_crawl == free_crawl,
    {
        DomainPolicy { permitted, blacklist, free_crawl }
    }

    /// Decides on a host.
    pub fn permits_host(&self, host: &String) -> (ok: bool)
        ensures
            ok == self.permits(host@),
    {
        let allowed = self.free_crawl || contains_name(&self.permitted, host);
        allowed && !contains_name(&self.blacklist, host)
    }

    /// Decides on the outcome of parsing a URL.
    pub fn decide(&self, parsed: &Option<ParsedUrl>) -> (ok: bool)
        ensures
            ok == self.admits(outcome_view(*parsed)),
    {
        match parsed {
            Some(p) => match &p.host {
                Some(host) => self.permits_host(host),
                None => false,
            },
            None => false,
        }
    }

    /// Decides on a raw URL: it is eligible if it parses, has a host, and
    /// the host is permitted.
    pub fn eligible(&self, url: &str) -> (ok: bool)
        ensures
            ok == self.eligible_spec(url@),
    {
        let parsed = parse_url(url);
        self.decide(&parsed)
    }

    /// Parts `links` into those that may be followed and those that may
    /// not. Each link is decided on as it stands: a relative link does not
    /// parse, and is rejected.
    pub fn sift(&self, links: &Vec<String>) -> (parted: Sifted)
        ensures
            parted.eligible.deep_view() == self.kept(links.deep_view(), true),
            parted.rejected.deep_view() == self.kept(links.deep_view(), false),
    {
        let mut eligible: Vec<String> = Vec::new();
        let mut rejected: Vec<String> = Vec::new();
        let mut i: usize = 0;
        assert(links.deep_view().take(0) =~= Seq::empty());
        while i < links.len()
            invariant
                i <= links.len(),
                eligible.deep_view() == self.kept(links.deep_view().take(i as int), true),
                rejected.deep_view() == self.kept(links.deep_view().take(i as int), false),
            decreases links.len() - i,
        {
            let ghost all = links.deep_view();
            let ghost yes = eligible.deep_view();
            let ghost no = rejected.deep_view();
            assert(all.take(i + 1).drop_last() =~= all.take(i as int));
            assert(all.take(i + 1).last() == links[i as int]@);
            if self.eligible(links[i].as_str()) {
                eligible.push(links[i].clone());
                assert(eligible.deep_view() =~= yes.push(links[i as int]@));
            } else {
                rejected.push(links[i].clone());
                assert(rejected.deep_view() =~= no.push(links[i as int]@));
            }
            i += 1;
        }
        assert(links.deep_view().take(i as int) =~= links.deep_view());
        Sifted { eligible, rejected }
    }
}

} // verus!
