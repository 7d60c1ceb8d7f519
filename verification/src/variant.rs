//! The client setups that are compared with each other.
use vstd::prelude::*;

verus! {

/// One setup: which client sends the requests, and how a response body is consumed.
#[derive(Clone, Copy, Debug, PartialEq, Eq, Structural)]
pub enum Variant {
    /// The default `reqwest` client; bodies are dropped chunk by chunk.
    ReqwestStreaming,
    /// The default `reqwest` client; bodies are buffered whole.
    ReqwestCollecting,
    /// A `reqwest` client with memory-conscious flags; bodies are dropped chunk by
    /// chunk.
    ReqwestTweaks,
    /// The blocking `ureq` client; bodies are streamed to a sink.
    UreqStreaming,
    /// The blocking `ureq` client; bodies are buffered whole.
    UreqCollecting,
}

/// How a response body is consumed.
#[derive(Clone, Copy, Debug, PartialEq, Eq, Structural)]
pub enum BodyHandling {
    /// Piece by piece, each dropped before the next is read.
    Streaming,
    /// Read into memory whole.
    Collecting,
}

/// The settings of a `reqwest` client; `None` leaves one at its default.
#[derive(Clone, Copy, Debug, PartialEq, Eq, Structural)]
pub struct ReqwestSettings {
    /// How many idle connections are kept for each host.
    pub pool_max_idle_per_host: Option<usize>,
    /// After how many seconds an idle connection is closed.
    pub pool_idle_timeout_secs: Option<u64>,
    /// The HTTP/2 flow-control window of a stream, in bytes.
    pub http2_initial_stream_window_size: Option<u32>,
    /// The HTTP/2 flow-control window of a connection, in bytes.
    pub http2_initial_connection_window_size: Option<u32>,
    /// Whether the HTTP/2 windows grow under load.
    pub http2_adaptive_window: Option<bool>,
}

/// The client that all workers share.
#[derive(Clone, Copy, Debug, PartialEq, Eq, Structural)]
pub enum Client {
    /// The asynchronous `reqwest` client.
    Reqwest(ReqwestSettings),
    /// The blocking `ureq` client, run on a pool of blocking threads.
    Ureq,
}

impl ReqwestSettings {
    /// Every setting at its default.
    pub open spec fn untouched() -> Self {
        ReqwestSettings {
            pool_max_idle_per_host: None,
            pool_idle_timeout_secs: None,
            http2_initial_stream_window_size: None,
            http2_initial_connection_window_size: None,
            http2_adaptive_window: None,
        }
    }

    /// No idle connections retained, a short idle timeout, and small flow-control
    /// windows that do not grow.
    pub open spec fn memory_conscious() -> Self {
        ReqwestSettings {
            pool_max_idle_per_host: Some(0),
            pool_idle_timeout_secs: Some(5),
            http2_initial_stream_window_size: Some(65536),
            http2_initial_connection_window_size: Some(65536),
            http2_adaptive_window: Some(false),
        }
    }
}

impl Variant {
    /// The name of the variant, as the lines that it prints carry it.
    pub open spec fn name_text(self) -> Seq<char> {
        match self {
            Variant::ReqwestStreaming => "reqwest_streaming"@,
            Variant::ReqwestCollecting => "reqwest_collecting"@,
            Variant::ReqwestTweaks => "reqwest_tweaks"@,
            Variant::UreqStreaming => "ureq_streaming"@,
            Variant::UreqCollecting => "ureq_collecting"@,
        }
    }

    /// How the variant consumes a response body.
    pub open spec fn body_handling(self) -> BodyHandling {
        match self {
            Variant::ReqwestCollecting | Variant::UreqCollecting => BodyHandling::Collecting,
            _ => BodyHandling::Streaming,
        }
    }

    /// The client of the variant.
    pub open spec fn shared_client(self) -> Client {
        match self {
            Variant::ReqwestStreaming | Variant::ReqwestCollecting => Client::Reqwest(
                ReqwestSettings::untouched(),
            ),
            Variant::ReqwestTweaks => Client::Reqwest(ReqwestSettings::memory_conscious()),
            Variant::UreqStreaming | Variant::UreqCollecting => Client::Ureq,
        }
    }

    /// The name of the variant.
    pub fn name(self) -> (name: &'static str)
        ensures
            name@ == self.name_text(),
    {
        match self {
            Variant::ReqwestStreaming => "reqwest_streaming",
            Variant::ReqwestCollecting => "reqwest_collecting",
            Variant::ReqwestTweaks => "reqwest_tweaks",
            Variant::UreqStreaming => "ureq_streaming",
            Variant::UreqCollecting => "ureq_collecting",
        }
    }

    /// The variant of the given name; `None` where no variant has it.
    pub fn from_name(name: &str) -> (variant: Option<Variant>)
        ensures
            variant matches Some(v) ==> v.name_text() == name@,
            variant is None <==> forall|v: Variant| #[trigger] v.name_text() != name@,
    {
        let given = name.to_owned();
        let all = [
            Variant::ReqwestStreaming,
            Variant::ReqwestCollecting,
            Variant::ReqwestTweaks,
            Variant::UreqStreaming,
            Variant::UreqCollecting,
        ];
        let mut i: usize = 0;
        while i < 5
            invariant
                given@ == name@,
                all@ == seq![
                    Variant::ReqwestStreaming,
                    Variant::ReqwestCollecting,
                    Variant::ReqwestTweaks,
                    Variant::UreqStreaming,
                    Variant::UreqCollecting,
                ],
                forall|j: int| 0 <= j < i ==> (#[trigger] all@[j]).name_text() != name@,
            decreases 5 - i,
        {
            if all[i].name().to_owned() == given {
                return Some(all[i]);
            }
            i = i + 1;
        }
        proof {
            assert forall|v: Variant| #[trigger] v.name_text() != name@ by {
                let j = match v {
                    Variant::ReqwestStreaming => 0,
                    Variant::ReqwestCollecting => 1,
                    Variant::ReqwestTweaks => 2,
                    Variant::UreqStreaming => 3int,
                    Variant::UreqCollecting => 4,
                };
                assert(all@[j] == v);
            }
        }
        None
    }

    /// How the variant consumes a response body.
    pub fn body(self) -> (body: BodyHandling)
        ensures
            body == self.body_handling(),
    {
        match self {
            Variant::ReqwestCollecting => BodyHandling::Collecting,
            Variant::UreqCollecting => BodyHandling::Collecting,
            _ => BodyHandling::Streaming,
        }
    }

    /// The client of the variant, with its settings.
    pub fn client(self) -> (client: Client)
        ensures
            client == self.shared_client(),
    {
        match self {
            Variant::ReqwestStreaming | Variant::ReqwestCollecting => Client::Reqwest(
                ReqwestSettings {
                    pool_max_idle_per_host: None,
                    pool_idle_timeout_secs: None,
                    http2_initial_stream_window_size: None,
                    http2_initial_connection_window_size: None,
                    http2_adaptive_window: None,
                },
            ),
            Variant::ReqwestTweaks => Client::Reqwest(
                ReqwestSettings {
                    pool_max_idle_per_host: Some(0),
                    pool_idle_timeout_secs: Some(5),
                    http2_initial_stream_window_size: Some(64 * 1024),
                    http2_initial_connection_window_size: Some(64 * 1024),
                    http2_adaptive_window: Some(false),
                },
            ),
            Variant::UreqStreaming | Variant::UreqCollecting => Client::Ureq,
        }
    }
}

/// No two variants share a name.
pub proof fn law_names_are_distinct(v: Variant, w: Variant)
    requires
        v.name_text() == w.name_text(),
    ensures
        v == w,
{
    reveal_strlit("reqwest_streaming");
    reveal_strlit("reqwest_collecting");
    reveal_strlit("reqwest_tweaks");
    reveal_strlit("ureq_streaming");
    reveal_strlit("ureq_collecting");
    assert(Variant::ReqwestStreaming.name_text().len() == 17);
    assert(Variant::ReqwestCollecting.name_text().len() == 18);
    assert(Variant::ReqwestTweaks.name_text().len() == 14);
    assert(Variant::UreqStreaming.name_text().len() == 14);
    assert(Variant::UreqCollecting.name_text().len() == 15);
    assert("reqwest_tweaks"@[0] == 'r');
    assert("ureq_streaming"@[0] == 'u');
}

/// A variant is determined by its client, settings included, and its body handling:
/// two variants differ in at least one of them.
pub proof fn law_variants_are_distinct_setups(v: Variant, w: Variant)
    requires
        v.shared_client() == w.shared_client(),
        v.body_handling() == w.body_handling(),
    ensures
        v == w,
{
}

/// Which variants have which client: the blocking one takes no settings, the default
/// asynchronous one has none touched, and the tuned one keeps no idle connection, closes
/// an idle one after five seconds, and has fixed windows of 64 KiB.
pub proof fn law_only_the_tuned_client_touches_its_settings(v: Variant)
    ensures
        v.shared_client() is Ureq <==> v == Variant::UreqStreaming || v == Variant::UreqCollecting,
        v.shared_client() matches Client::Reqwest(s) ==> {
            let tuned = v == Variant::ReqwestTweaks;
            &&& s.pool_max_idle_per_host == if tuned { Some(0usize) } else { None }
            &&& s.pool_idle_timeout_secs == if tuned { Some(5u64) } else { None }
            &&& s.http2_initial_stream_window_size == if tuned { Some(65536u32) } else { None }
            &&& s.http2_initial_connection_window_size == if tuned { Some(65536u32) } else { None }
            &&& s.http2_adaptive_window == if tuned { Some(false) } else { None }
        },
        v.body_handling() == BodyHandling::Collecting <==> v == Variant::ReqwestCollecting || v
            == Variant::UreqCollecting,
{
}

} // verus!
