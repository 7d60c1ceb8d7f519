use load_harness::variant::{BodyHandling, Client, ReqwestSettings, Variant};

const ALL: [Variant; 5] = [
    Variant::ReqwestStreaming,
    Variant::ReqwestCollecting,
    Variant::ReqwestTweaks,
    Variant::UreqStreaming,
    Variant::UreqCollecting,
];

const UNTOUCHED: ReqwestSettings = ReqwestSettings {
    pool_max_idle_per_host: None,
    pool_idle_timeout_secs: None,
    http2_initial_stream_window_size: None,
    http2_initial_connection_window_size: None,
    http2_adaptive_window: None,
};

#[test]
fn names() {
    assert_eq!(Variant::ReqwestStreaming.name(), "reqwest_streaming");
    assert_eq!(Variant::ReqwestCollecting.name(), "reqwest_collecting");
    assert_eq!(Variant::ReqwestTweaks.name(), "reqwest_tweaks");
    assert_eq!(Variant::UreqStreaming.name(), "ureq_streaming");
    assert_eq!(Variant::UreqCollecting.name(), "ureq_collecting");
}

#[test]
fn names_lead_back_to_their_variants() {
    for variant in ALL {
        assert_eq!(Variant::from_name(variant.name()), Some(variant));
    }
    assert_eq!(Variant::from_name(""), None);
    assert_eq!(Variant::from_name("ureq"), None);
    assert_eq!(Variant::from_name("Ureq_streaming"), None);
    assert_eq!(Variant::from_name("ureq_streaming "), None);
}

#[test]
fn default_clients() {
    assert_eq!(Variant::ReqwestStreaming.client(), Client::Reqwest(UNTOUCHED));
    assert_eq!(Variant::ReqwestCollecting.client(), Client::Reqwest(UNTOUCHED));
    assert_eq!(Variant::UreqStreaming.client(), Client::Ureq);
    assert_eq!(Variant::UreqCollecting.client(), Client::Ureq);
}

#[test]
fn memory_conscious_client() {
    assert_eq!(
        Variant::ReqwestTweaks.client(),
        Client::Reqwest(ReqwestSettings {
            pool_max_idle_per_host: Some(0),
            pool_idle_timeout_secs: Some(5),
            http2_initial_stream_window_size: Some(64 * 1024),
            http2_initial_connection_window_size: Some(64 * 1024),
            http2_adaptive_window: Some(false),
        })
    );
}

#[test]
fn body_handling() {
    assert_eq!(Variant::ReqwestStreaming.body(), BodyHandling::Streaming);
    assert_eq!(Variant::ReqwestCollecting.body(), BodyHandling::Collecting);
    assert_eq!(Variant::ReqwestTweaks.body(), BodyHandling::Streaming);
    assert_eq!(Variant::UreqStreaming.body(), BodyHandling::Streaming);
    assert_eq!(Variant::UreqCollecting.body(), BodyHandling::Collecting);
}

#[test]
fn every_variant_is_a_setup_of_its_own() {
    for v in ALL {
        for w in ALL {
            assert_eq!(v == w, v.client() == w.client() && v.body() == w.body());
        }
    }
}
