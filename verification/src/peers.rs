//! Peer registries: downstream hosts we push records to and upstream hosts
//! we pull chains from, each set with a sweeping toggle.

use crate::api::{TiafDownstreams, TiafUpstreams};
use crate::chain::{lemma_string_views_push, string_views};
use vstd::prelude::*;

verus! {

/// The mathematical content of a downstream host entry.
pub struct WriteHostM {
    pub url: Seq<char>,
    pub last_pushed: Option<u64>,
    pub latest_hash: Option<Seq<char>>,
}

/// A downstream peer: somewhere we push records to, with the progress the
/// notifier has made against it.
pub struct WriteHost {
    pub url: String,
    pub last_pushed: Option<u64>,
    pub latest_hash: Option<String>,
}

impl View for WriteHost {
    type V = WriteHostM;

    open spec fn view(&self) -> WriteHostM {
        WriteHostM {
            url: self.url@,
            last_pushed: self.last_pushed,
            latest_hash: match self.latest_hash {
                Some(ref h) => Some(h@),
                None => None,
            },
        }
    }
}

/// The models of a sequence of downstream hosts.
pub open spec fn write_host_views(hs: Seq<WriteHost>) -> Seq<WriteHostM> {
    hs.map_values(|h: WriteHost| h@)
}

/// The urls of a sequence of downstream hosts.
pub open spec fn write_host_urls(hs: Seq<WriteHostM>) -> Seq<Seq<char>> {
    hs.map_values(|h: WriteHostM| h.url)
}

/// Pushing a host pushes its model and its url.
pub proof fn lemma_write_host_views_push(hs: Seq<WriteHost>, x: WriteHost)
    ensures
        write_host_views(hs.push(x)) == write_host_views(hs).push(x@),
{
    assert forall|j: int| 0 <= j < hs.len() + 1 implies write_host_views(hs.push(x))[j]
        == write_host_views(hs).push(x@)[j] by {
        if j < hs.len() {
            assert(hs.push(x)[j] == hs[j]);
        } else {
            assert(hs.push(x)[j] == x);
        }
    }
    assert(write_host_views(hs.push(x)) =~= write_host_views(hs).push(x@));
}

/// Pushing a host model pushes its url.
pub proof fn lemma_write_host_urls_push(hs: Seq<WriteHostM>, x: WriteHostM)
    ensures
        write_host_urls(hs.push(x)) == write_host_urls(hs).push(x.url),
{
    assert forall|j: int| 0 <= j < hs.len() + 1 implies write_host_urls(hs.push(x))[j]
        == write_host_urls(hs).push(x.url)[j] by {
        if j < hs.len() {
            assert(hs.push(x)[j] == hs[j]);
        } else {
            assert(hs.push(x)[j] == x);
        }
    }
    assert(write_host_urls(hs.push(x)) =~= write_host_urls(hs).push(x.url));
}

impl Clone for WriteHost {
    fn clone(&self) -> (res: WriteHost)
        ensures
            res@ == self@,
    {
        WriteHost {
            url: self.url.clone(),
            last_pushed: self.last_pushed,
            latest_hash: match &self.latest_hash {
                Some(h) => Some(h.clone()),
                None => None,
            },
        }
    }
}

impl WriteHost {
    /// A fresh entry for a url that has never been pushed to.
    pub fn new(s: &String) -> (h: WriteHost)
        ensures
            h@.url == s@,
            h@.last_pushed is None,
            h@.latest_hash is None,
    {
        WriteHost { url: s.clone(), last_pushed: None, latest_hash: None }
    }

    /// The host's url.
    pub fn url(&self) -> (r: String)
        ensures
            r@ == self@.url,
    {
        self.url.clone()
    }

    /// Records that `hash` was delivered to this host at `at_millis`.
    pub fn mark_pushed(&mut self, hash: String, at_millis: u64)
        ensures
            final(self)@.url == old(self)@.url,
            final(self)@.last_pushed == Some(at_millis),
            final(self)@.latest_hash == Some(hash@),
    {
        self.latest_hash = Some(hash);
        self.last_pushed = Some(at_millis);
    }
}

/// The downstream registry: hosts to push to, and whether the notifier runs.
pub struct Downstreams {
    pub hosts: Vec<WriteHost>,
    pub sweeping: bool,
}

impl Downstreams {
    /// The registry as the admin endpoints exchange it: urls and the toggle.
    pub fn to_api(&self) -> (r: TiafDownstreams)
        ensures
            string_views(r.hosts@) == write_host_urls(write_host_views(self.hosts@)),
            r.sweeping == self.sweeping,
    {
        let mut hosts: Vec<String> = Vec::new();
        let mut i: usize = 0;
        while i < self.hosts.len()
            invariant
                i <= self.hosts@.len(),
                string_views(hosts@) == write_host_urls(write_host_views(self.hosts@)).take(
                    i as int,
                ),
            decreases self.hosts@.len() - i,
        {
            let u = self.hosts[i].url.clone();
            let ghost uv = u;
            let ghost hosts0 = hosts@;
            hosts.push(u);
            proof {
                lemma_string_views_push(hosts0, uv);
                assert(write_host_urls(write_host_views(self.hosts@))[i as int] == self.hosts@[
                    i as int]@.url);
                assert(string_views(hosts@) =~= write_host_urls(
                    write_host_views(self.hosts@),
                ).take(i + 1));
            }
            i = i + 1;
        }
        proof {
            assert(string_views(hosts@) =~= write_host_urls(write_host_views(self.hosts@)));
        }
        TiafDownstreams { hosts, sweeping: self.sweeping }
    }

    /// The registry a wire shape describes: a fresh entry per url.
    pub fn from_api(api: &TiafDownstreams) -> (r: Downstreams)
        ensures
            write_host_urls(write_host_views(r.hosts@)) == string_views(api.hosts@),
            forall|i: int|
                0 <= i < r.hosts@.len() ==> (#[trigger] write_host_views(r.hosts@)[i]).last_pushed
                    is None && write_host_views(r.hosts@)[i].latest_hash is None,
            r.sweeping == api.sweeping,
    {
        let mut hosts: Vec<WriteHost> = Vec::new();
        let mut i: usize = 0;
        while i < api.hosts.len()
            invariant
                i <= api.hosts@.len(),
                write_host_urls(write_host_views(hosts@)) == string_views(api.hosts@).take(
                    i as int,
                ),
                forall|j: int|
                    0 <= j < hosts@.len() ==> (#[trigger] write_host_views(hosts@)[j]).last_pushed
                        is None && write_host_views(hosts@)[j].latest_hash is None,
            decreases api.hosts@.len() - i,
        {
            let h = WriteHost::new(&api.hosts[i]);
            let ghost hv = h;
            let ghost hosts0 = hosts@;
            hosts.push(h);
            proof {
                lemma_write_host_views_push(hosts0, hv);
                lemma_write_host_urls_push(write_host_views(hosts0), hv@);
                assert(string_views(api.hosts@)[i as int] == api.hosts@[i as int]@);
                assert(write_host_urls(write_host_views(hosts@)) =~= string_views(
                    api.hosts@,
                ).take(i + 1));
            }
            i = i + 1;
        }
        proof {
            assert(write_host_urls(write_host_views(hosts@)) =~= string_views(api.hosts@));
        }
        Downstreams { hosts, sweeping: api.sweeping }
    }

    /// A registry over the given hosts, with the notifier off.
    pub fn new(p: Vec<WriteHost>) -> (r: Downstreams)
        ensures
            r.hosts == p,
            r.sweeping == false,
    {
        Downstreams { hosts: p, sweeping: false }
    }

    /// The hosts, as new entries.
    pub fn downstreams(&self) -> (r: Vec<WriteHost>)
        ensures
            write_host_views(r@) == write_host_views(self.hosts@),
    {
        let mut r: Vec<WriteHost> = Vec::new();
        let mut i: usize = 0;
        while i < self.hosts.len()
            invariant
                i <= self.hosts@.len(),
                write_host_views(r@) == write_host_views(self.hosts@).take(i as int),
            decreases self.hosts@.len() - i,
        {
            let h = self.hosts[i].clone();
            let ghost hv = h;
            let ghost r0 = r@;
            r.push(h);
            proof {
                lemma_write_host_views_push(r0, hv);
                assert(write_host_views(r@) =~= write_host_views(self.hosts@).take(i + 1));
            }
            i = i + 1;
        }
        proof {
            assert(write_host_views(r@) =~= write_host_views(self.hosts@));
        }
        r
    }
}

/// The mathematical content of an upstream host entry.
pub struct ReadHostM {
    pub url: Seq<char>,
    pub last_swept: Option<u64>,
    pub latest_hash: Option<Seq<char>>,
}

/// An upstream peer: somewhere we pull chains from, with the progress the
/// puller has made against it. A `None` sweep time means never swept.
pub struct ReadHost {
    pub url: String,
    pub last_swept: Option<u64>,
    pub latest_hash: Option<String>,
}

impl View for ReadHost {
    type V = ReadHostM;

    open spec fn view(&self) -> ReadHostM {
        ReadHostM {
            url: self.url@,
            last_swept: self.last_swept,
            latest_hash: match self.latest_hash {
                Some(ref h) => Some(h@),
                None => None,
            },
        }
    }
}

/// The models of a sequence of upstream hosts.
pub open spec fn read_host_views(hs: Seq<ReadHost>) -> Seq<ReadHostM> {
    hs.map_values(|h: ReadHost| h@)
}

/// The urls of a sequence of upstream hosts.
pub open spec fn read_host_urls(hs: Seq<ReadHostM>) -> Seq<Seq<char>> {
    hs.map_values(|h: ReadHostM| h.url)
}

/// Pushing a host pushes its model and its url.
pub proof fn lemma_read_host_views_push(hs: Seq<ReadHost>, x: ReadHost)
    ensures
        read_host_views(hs.push(x)) == read_host_views(hs).push(x@),
{
    assert forall|j: int| 0 <= j < hs.len() + 1 implies read_host_views(hs.push(x))[j]
        == read_host_views(hs).push(x@)[j] by {
        if j < hs.len() {
            assert(hs.push(x)[j] == hs[j]);
        } else {
            assert(hs.push(x)[j] == x);
        }
    }
    assert(read_host_views(hs.push(x)) =~= read_host_views(hs).push(x@));
}

/// Pushing a host model pushes its url.
pub proof fn lemma_read_host_urls_push(hs: Seq<ReadHostM>, x: ReadHostM)
    ensures
        read_host_urls(hs.push(x)) == read_host_urls(hs).push(x.url),
{
    assert forall|j: int| 0 <= j < hs.len() + 1 implies read_host_urls(hs.push(x))[j]
        == read_host_urls(hs).push(x.url)[j] by {
        if j < hs.len() {
            assert(hs.push(x)[j] == hs[j]);
        } else {
            assert(hs.push(x)[j] == x);
        }
    }
    assert(read_host_urls(hs.push(x)) =~= read_host_urls(hs).push(x.url));
}

/// The hosts of `hs` whose url is not `url`, in order.
pub open spec fn without_url(hs: Seq<ReadHostM>, url: Seq<char>) -> Seq<ReadHostM>
    decreases hs.len(),
{
    if hs.len() == 0 {
        Seq::empty()
    } else {
        let rest = without_url(hs.drop_last(), url);
        if hs.last().url == url {
            rest
        } else {
            rest.push(hs.last())
        }
    }
}

impl Clone for ReadHost {
    fn clone(&self) -> (res: ReadHost)
        ensures
            res@ == self@,
    {
        ReadHost {
            url: self.url.clone(),
            last_swept: self.last_swept,
            latest_hash: match &self.latest_hash {
                Some(h) => Some(h.clone()),
                None => None,
            },
        }
    }
}

impl ReadHost {
    /// A fresh entry for a url that has never been swept.
    pub fn new(s: &String) -> (h: ReadHost)
        ensures
            h@.url == s@,
            h@.last_swept is None,
            h@.latest_hash is None,
    {
        ReadHost { url: s.clone(), last_swept: None, latest_hash: None }
    }

    /// Records that this host was swept at `at_millis`, its chain ending in
    /// `hash`.
    pub fn mark_swept(&mut self, hash: String, at_millis: u64)
        ensures
            final(self)@.url == old(self)@.url,
            final(self)@.last_swept == Some(at_millis),
            final(self)@.latest_hash == Some(hash@),
    {
        self.latest_hash = Some(hash);
        self.last_swept = Some(at_millis);
    }
}

/// The upstream registry: hosts to pull from, and whether the puller runs.
pub struct Upstreams {
    pub hosts: Vec<ReadHost>,
    pub sweeping: bool,
}

impl Upstreams {
    /// The registry as the admin endpoints exchange it: urls and the toggle.
    pub fn to_api(&self) -> (r: TiafUpstreams)
        ensures
            string_views(r.hosts@) == read_host_urls(read_host_views(self.hosts@)),
            r.sweeping == self.sweeping,
    {
        let mut hosts: Vec<String> = Vec::new();
        let mut i: usize = 0;
        while i < self.hosts.len()
            invariant
                i <= self.hosts@.len(),
                string_views(hosts@) == read_host_urls(read_host_views(self.hosts@)).take(
                    i as int,
                ),
            decreases self.hosts@.len() - i,
        {
            let u = self.hosts[i].url.clone();
            let ghost uv = u;
            let ghost hosts0 = hosts@;
            hosts.push(u);
            proof {
                lemma_string_views_push(hosts0, uv);
                assert(read_host_urls(read_host_views(self.hosts@))[i as int] == self.hosts@[
                    i as int]@.url);
                assert(string_views(hosts@) =~= read_host_urls(
                    read_host_views(self.hosts@),
                ).take(i + 1));
            }
            i = i + 1;
        }
        proof {
            assert(string_views(hosts@) =~= read_host_urls(read_host_views(self.hosts@)));
        }
        TiafUpstreams { hosts, sweeping: self.sweeping }
    }

    /// The registry a wire shape describes: a fresh entry per url.
    pub fn from_api(api: &TiafUpstreams) -> (r: Upstreams)
        ensures
            read_host_urls(read_host_views(r.hosts@)) == string_views(api.hosts@),
            forall|i: int|
                0 <= i < r.hosts@.len() ==> (#[trigger] read_host_views(r.hosts@)[i]).last_swept
                    is None && read_host_views(r.hosts@)[i].latest_hash is None,
            r.sweeping == api.sweeping,
    {
        let mut hosts: Vec<ReadHost> = Vec::new();
        let mut i: usize = 0;
        while i < api.hosts.len()
            invariant
                i <= api.hosts@.len(),
                read_host_urls(read_host_views(hosts@)) == string_views(api.hosts@).take(i as int),
                forall|j: int|
                    0 <= j < hosts@.len() ==> (#[trigger] read_host_views(hosts@)[j]).last_swept
                        is None && read_host_views(hosts@)[j].latest_hash is None,
            decreases api.hosts@.len() - i,
        {
            let h = ReadHost::new(&api.hosts[i]);
            let ghost hv = h;
            let ghost hosts0 = hosts@;
            hosts.push(h);
            proof {
                lemma_read_host_views_push(hosts0, hv);
                lemma_read_host_urls_push(read_host_views(hosts0), hv@);
                assert(string_views(api.hosts@)[i as int] == api.hosts@[i as int]@);
                assert(read_host_urls(read_host_views(hosts@)) =~= string_views(api.hosts@).take(
                    i + 1,
                ));
            }
            i = i + 1;
        }
        proof {
            assert(read_host_urls(read_host_views(hosts@)) =~= string_views(api.hosts@));
        }
        Upstreams { hosts, sweeping: api.sweeping }
    }

    /// A registry over the given hosts, with the puller off.
    pub fn new(hosts: Vec<ReadHost>) -> (r: Upstreams)
        ensures
            r.hosts == hosts,
            r.sweeping == false,
    {
        Upstreams { hosts, sweeping: false }
    }

    /// The hosts, as new entries.
    pub fn upstreams(&self) -> (r: Vec<ReadHost>)
        ensures
            read_host_views(r@) == read_host_views(self.hosts@),
    {
        let mut r: Vec<ReadHost> = Vec::new();
        let mut i: usize = 0;
        while i < self.hosts.len()
            invariant
                i <= self.hosts@.len(),
                read_host_views(r@) == read_host_views(self.hosts@).take(i as int),
            decreases self.hosts@.len() - i,
        {
            let h = self.hosts[i].clone();
            let ghost hv = h;
            let ghost r0 = r@;
            r.push(h);
            proof {
                lemma_read_host_views_push(r0, hv);
                assert(read_host_views(r@) =~= read_host_views(self.hosts@).take(i + 1));
            }
            i = i + 1;
        }
        proof {
            assert(read_host_views(r@) =~= read_host_views(self.hosts@));
        }
        r
    }

    /// Turns the puller on or off.
    pub fn set_sweeping(&mut self, sweeping: bool)
        ensures
            final(self).sweeping == sweeping,
            final(self).hosts == old(self).hosts,
    {
        self.sweeping = sweeping;
    }

    /// Registers one more upstream host.
    pub fn add(&mut self, peer: ReadHost)
        ensures
            final(self).hosts@ == old(self).hosts@.push(peer),
            final(self).sweeping == old(self).sweeping,
    {
        self.hosts.push(peer);
    }

    /// Drops every host that carries the peer's url.
    pub fn remove(&mut self, peer: &ReadHost)
        ensures
            read_host_views(final(self).hosts@) == without_url(
                read_host_views(old(self).hosts@),
                peer@.url,
            ),
            final(self).sweeping == old(self).sweeping,
    {
        let mut kept: Vec<ReadHost> = Vec::new();
        let mut i: usize = 0;
        while i < self.hosts.len()
            invariant
                i <= self.hosts@.len(),
                self.hosts == old(self).hosts,
                self.sweeping == old(self).sweeping,
                read_host_views(kept@) == without_url(
                    read_host_views(self.hosts@.take(i as int)),
                    peer@.url,
                ),
            decreases self.hosts@.len() - i,
        {
            proof {
                assert(read_host_views(self.hosts@.take(i + 1)).drop_last() =~= read_host_views(
                    self.hosts@.take(i as int),
                ));
                assert(read_host_views(self.hosts@.take(i + 1)).last() == self.hosts@[i as int]@);
            }
            if !(self.hosts[i].url == peer.url) {
                let h = self.hosts[i].clone();
                let ghost hv = h;
                let ghost kept0 = kept@;
                kept.push(h);
                proof {
                    lemma_read_host_views_push(kept0, hv);
                    assert(read_host_views(kept@) =~= without_url(
                        read_host_views(self.hosts@.take(i + 1)),
                        peer@.url,
                    ));
                }
            }
            i = i + 1;
        }
        proof {
            assert(self.hosts@.take(self.hosts@.len() as int) == self.hosts@);
        }
        self.hosts = kept;
    }
}

} // verus!
