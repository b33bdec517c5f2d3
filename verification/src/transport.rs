//! Sending prover messages: to every known archive, and over gossip.

use vstd::prelude::*;
use vstd::string::*;

use crate::error::{internal, ErrorView, QuilError};
use crate::multiaddr::text_views;
use crate::text::{concat2, has_part, part_at};

verus! {

/// A text from a place on, with every occurrence of one part replaced by another,
/// found from left to right without overlap.
pub open spec fn replaced_from(s: Seq<char>, i: int, from: Seq<char>, to: Seq<char>) -> Seq<char>
    decreases s.len() - i,
{
    if i < 0 || i >= s.len() {
        Seq::empty()
    } else if from.len() > 0 && part_at(s, i, from) {
        to + replaced_from(s, i + from.len(), from, to)
    } else {
        seq![s[i]] + replaced_from(s, i + 1, from, to)
    }
}

/// A text with every occurrence of one part replaced by another.
fn replace_part(s: &str, from: &str, to: &str) -> (r: String)
    requires
        from@.len() > 0,
    ensures
        r@ == replaced_from(s@, 0, from@, to@),
{
    let n: usize = s.unicode_len();
    let m: usize = from.unicode_len();
    let mut r = String::new();
    let mut i: usize = 0;
    assert(r@ + replaced_from(s@, 0, from@, to@) =~= replaced_from(s@, 0, from@, to@));
    while i < n
        invariant
            i <= n,
            n == s@.len(),
            m == from@.len(),
            m > 0,
            r@ + replaced_from(s@, i as int, from@, to@) == replaced_from(s@, 0, from@, to@),
        decreases n - i,
    {
        let ghost before = r@;
        if has_part(s, i, from) {
            r.append(to);
            assert(before + (to@ + replaced_from(s@, i + m, from@, to@)) =~= r@ + replaced_from(
                s@,
                i + m,
                from@,
                to@,
            ));
            i = i + m;
        } else {
            r.append(s.substring_char(i, i + 1));
            assert(s@.subrange(i as int, i + 1) =~= seq![s@[i as int]]);
            assert(before + (seq![s@[i as int]] + replaced_from(s@, i + 1, from@, to@)) =~= r@
                + replaced_from(s@, i + 1, from@, to@));
            i = i + 1;
        }
    }
    assert(r@ + Seq::<char>::empty() =~= r@);
    r
}

/// The address of an archive's stream service. Peers announce the port of their
/// gossip service; the stream service listens on another one.
pub open spec fn stream_address_of(addr: Seq<char>) -> Seq<char> {
    replaced_from(addr, 0, ":8336"@, ":8340"@)
}

/// The address of an archive's stream service.
pub fn stream_address(addr: &str) -> (r: String)
    ensures
        r@ == stream_address_of(addr@),
{
    proof {
        reveal_strlit(":8336");
    }
    replace_part(addr, ":8336", ":8340")
}

/// The stream addresses of a list of archives.
pub open spec fn stream_addresses_of(addrs: Seq<Seq<char>>) -> Seq<Seq<char>> {
    Seq::new(addrs.len(), |i: int| stream_address_of(addrs[i]))
}

/// The bitmask of the topic for prover messages.
pub fn global_prover_bitmask() -> (r: Vec<u8>)
    ensures
        r@ == seq![0u8, 0, 0],
{
    vec![0, 0, 0]
}

/// What became of one submission to an archive.
pub enum SubmitOutcome {
    /// The archive at the address took it.
    Accepted(String),
    /// The archive at the address did not, for the reason given.
    Failed(String, String),
    /// The task that made the submission did not end properly.
    Lost,
}

/// How many of the submissions were taken.
pub open spec fn accepted_count(outcomes: Seq<SubmitOutcome>) -> nat
    decreases outcomes.len(),
{
    if outcomes.len() == 0 {
        0
    } else if outcomes.last() is Accepted {
        accepted_count(outcomes.drop_last()) + 1
    } else {
        accepted_count(outcomes.drop_last())
    }
}

/// Counts the submissions that were taken.
pub fn count_accepted(outcomes: &Vec<SubmitOutcome>) -> (r: usize)
    ensures
        r == accepted_count(outcomes@),
{
    let mut n: usize = 0;
    let mut i: usize = 0;
    assert(outcomes@.take(0) =~= Seq::<SubmitOutcome>::empty());
    while i < outcomes.len()
        invariant
            i <= outcomes@.len(),
            n <= i,
            n == accepted_count(outcomes@.take(i as int)),
        decreases outcomes@.len() - i,
    {
        assert(outcomes@.take(i + 1).drop_last() =~= outcomes@.take(i as int));
        match &outcomes[i] {
            SubmitOutcome::Accepted(_) => {
                n += 1;
            },
            _ => {},
        }
        i += 1;
    }
    assert(outcomes@.take(i as int) =~= outcomes@);
    n
}

/// The result of publishing a bundle: it fails only where no archive took the
/// bundle and gossip failed too.
pub open spec fn publish_outcome(archive_ok_count: nat, p2p_ok: bool) -> Result<(), ErrorView> {
    if archive_ok_count == 0 && !p2p_ok {
        Err(
            ErrorView::P2p(
                "publish_prover_bundle: all paths failed (no archive accepted, BlossomSub publish failed)"@,
            ),
        )
    } else {
        Ok(())
    }
}

/// Joins the outcomes of both ways of publishing into one result.
pub fn combine_publish_outcome(archive_ok_count: usize, p2p_ok: bool) -> (r: Result<(), QuilError>)
    ensures
        crate::error::outcome(r) == publish_outcome(archive_ok_count as nat, p2p_ok),
{
    if archive_ok_count == 0 && !p2p_ok {
        return Err(
            QuilError::P2p(
                "publish_prover_bundle: all paths failed (no archive accepted, BlossomSub publish failed)".to_owned(),
            ),
        );
    }
    Ok(())
}

/// What is to be done to publish a bundle: the archives to submit it to, by the
/// addresses of their stream services, and whether to send it over gossip.
pub struct PublishPlan {
    pub archives: Vec<String>,
    pub gossip: bool,
}

/// What a node needs to know of itself to send prover messages.
pub struct ProdProverMessageTransport {
    /// The seed of the node's Ed448 identity. Without one no archive can be reached.
    pub ed448_seed: Option<Vec<u8>>,
    /// Whether bundles are also sent over gossip.
    pub publish_to_blossomsub: bool,
}

impl ProdProverMessageTransport {
    /// Decides where a bundle goes: to every archive of the pool if the node has an
    /// identity, and over gossip if that is switched on.
    pub fn plan_publish(&self, pool: &Vec<String>) -> (r: PublishPlan)
        ensures
            text_views(r.archives@) == if self.ed448_seed is Some {
                stream_addresses_of(text_views(pool@))
            } else {
                Seq::empty()
            },
            r.gossip == self.publish_to_blossomsub,
    {
        let mut archives: Vec<String> = Vec::new();
        if self.ed448_seed.is_some() {
            let mut i: usize = 0;
            while i < pool.len()
                invariant
                    i <= pool@.len(),
                    archives@.len() == i,
                    forall|j: int|
                        0 <= j < i ==> (#[trigger] archives@[j])@ == stream_address_of(pool@[j]@),
                decreases pool@.len() - i,
            {
                archives.push(stream_address(pool[i].as_str()));
                i += 1;
            }
            assert(text_views(archives@) =~= stream_addresses_of(text_views(pool@)));
        } else {
            assert(text_views(archives@) =~= Seq::<Seq<char>>::empty());
        }
        PublishPlan { archives, gossip: self.publish_to_blossomsub }
    }

    /// The result of publishing, from what became of each submission and of gossip,
    /// where it was tried. Gossip that was not tried does not count as failed.
    pub fn finish_publish(
        &self,
        outcomes: &Vec<SubmitOutcome>,
        gossip: Option<bool>,
    ) -> (r: Result<(), QuilError>)
        ensures
            crate::error::outcome(r) == publish_outcome(
                accepted_count(outcomes@),
                gossip != Some(false),
            ),
    {
        let p2p_ok = match gossip {
            Some(ok) => ok,
            None => true,
        };
        combine_publish_outcome(count_accepted(outcomes), p2p_ok)
    }

    /// The archives that are asked, in order, for the network's latest header: all of
    /// the pool, if the node has an identity.
    pub fn header_sources(&self, pool: &Vec<String>) -> (r: Vec<String>)
        ensures
            text_views(r@) == if self.ed448_seed is Some {
                text_views(pool@)
            } else {
                Seq::empty()
            },
    {
        let mut r: Vec<String> = Vec::new();
        if self.ed448_seed.is_some() {
            let mut i: usize = 0;
            while i < pool.len()
                invariant
                    i <= pool@.len(),
                    r@.len() == i,
                    forall|j: int| 0 <= j < i ==> (#[trigger] r@[j])@ == pool@[j]@,
                decreases pool@.len() - i,
            {
                r.push(pool[i].as_str().to_owned());
                i += 1;
            }
            assert(text_views(r@) =~= text_views(pool@));
        } else {
            assert(text_views(r@) =~= Seq::<Seq<char>>::empty());
        }
        r
    }
}

/// The first header that an archive gave.
pub open spec fn first_header<H>(archives: Seq<Option<H>>) -> Option<H>
    decreases archives.len(),
{
    if archives.len() == 0 {
        None
    } else if archives[0] is Some {
        archives[0]
    } else {
        first_header(archives.drop_first())
    }
}

/// The header to go by: the first that an archive gave, and only where none gave one
/// that of the latest local frame, which may be missing, or have no header.
pub open spec fn chosen_header<H>(
    archives: Seq<Option<H>>,
    local: Result<Option<H>, Seq<char>>,
) -> Result<H, ErrorView> {
    match first_header(archives) {
        Some(h) => Ok(h),
        None => match local {
            Ok(Some(h)) => Ok(h),
            Ok(None) => Err(ErrorView::Internal("local frame missing header"@)),
            Err(e) => Err(ErrorView::Internal("no local frame: "@ + e)),
        },
    }
}

/// The view of a lookup whose failure is a text.
pub open spec fn text_result<T>(r: Result<T, String>) -> Result<T, Seq<char>> {
    match r {
        Ok(v) => Ok(v),
        Err(e) => Err(e@),
    }
}

/// Chooses the header to go by. `archives` holds what each archive that was asked gave,
/// in order.
pub fn latest_global_frame_header<H>(
    archives: Vec<Option<H>>,
    local: Result<Option<H>, String>,
) -> (r: Result<H, QuilError>)
    ensures
        crate::error::outcome(r) == chosen_header(archives@, text_result(local)),
{
    let ghost all = archives@;
    let mut rest = archives;
    while rest.len() > 0
        invariant
            all == archives@,
            first_header(all) == first_header(rest@),
        decreases rest@.len(),
    {
        let ghost before = rest@;
        let next = rest.remove(0);
        assert(rest@ =~= before.drop_first());
        if let Some(h) = next {
            return Ok(h);
        }
    }
    match local {
        Ok(Some(h)) => Ok(h),
        Ok(None) => Err(internal("local frame missing header")),
        Err(e) => {
            let m = concat2("no local frame: ", e.as_str());
            Err(internal(m.as_str()))
        },
    }
}

/// Where any archive gave a header, what the local store holds does not matter.
pub proof fn law_local_header_is_the_last_resort<H>(
    archives: Seq<Option<H>>,
    i: int,
    local: Result<Option<H>, Seq<char>>,
)
    requires
        0 <= i < archives.len(),
        archives[i] is Some,
    ensures
        chosen_header(archives, local) is Ok,
        first_header(archives) is Some,
        chosen_header(archives, local)->Ok_0 == first_header(archives)->Some_0,
    decreases archives.len(),
{
    if archives[0] is None {
        assert(archives.drop_first()[i - 1] == archives[i]);
        law_local_header_is_the_last_resort(archives.drop_first(), i - 1, local);
    }
}

/// One archive that took the bundle is enough, whatever became of the others and of
/// gossip; so is gossip that did not fail.
pub proof fn law_one_path_is_enough(outcomes: Seq<SubmitOutcome>, i: int, p2p_ok: bool)
    requires
        p2p_ok || (0 <= i < outcomes.len() && outcomes[i] is Accepted),
    ensures
        publish_outcome(accepted_count(outcomes), p2p_ok) == Ok::<(), ErrorView>(()),
    decreases outcomes.len(),
{
    if !p2p_ok && i < outcomes.len() - 1 {
        assert(outcomes.drop_last()[i] == outcomes[i]);
        law_one_path_is_enough(outcomes.drop_last(), i, p2p_ok);
    }
}

} // verus!
