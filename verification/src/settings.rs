use vstd::prelude::*;
use crate::order::{chars_less, lemma_ascii_text_less};
use crate::textmap::{lemma_texts_increasing_by_steps, texts_increasing};

verus! {

/// The product name.
pub const APP_NAME: &'static str = "YT-HOME";

/// The release this panel belongs to.
pub const APP_VERSION: &'static str = "3.0.1";

/// The name of the session cookie.
pub const SESSION_COOKIE: &'static str = "YT-HOME";

/// The sing-box configuration a fresh panel starts from.
pub const DEFAULT_CONFIG_JSON: &'static str = r#"{
  "log": {
    "level": "info",
    "timestamp": true
  },
  "dns": {
    "servers": [
      {
        "type": "local",
        "tag": "local-dns"
      }
    ],
    "rules": [],
    "final": "local-dns"
  },
  "route": {
    "rules": [
      {
        "action": "sniff"
      },
      {
        "protocol": [
          "dns"
        ],
        "action": "hijack-dns"
      }
    ],
    "rule_set": [],
    "final": "direct",
    "auto_detect_interface": true
  },
  "experimental": {
    "cache_file": {
      "enabled": true
    }
  }
}"#;

/// The settings a fresh panel starts with, in key order.
pub open spec fn default_setting_pairs() -> Seq<(&'static str, &'static str)> {
    seq![
        ("changeRetention", "1000"),
        ("config", DEFAULT_CONFIG_JSON),
        ("sessionMaxAge", "0"),
        ("subCertFile", ""),
        ("subClashExt", ""),
        ("subDomain", ""),
        ("subEncode", "true"),
        ("subJsonExt", ""),
        ("subKeyFile", ""),
        ("subListen", ""),
        ("subPath", "/sub/"),
        ("subPort", "2096"),
        ("subShowInfo", "false"),
        ("subURI", ""),
        ("subUpdates", "12"),
        ("timeLocation", "UTC"),
        ("trafficAge", "30"),
        ("version", APP_VERSION),
        ("webCertFile", ""),
        ("webDomain", ""),
        ("webKeyFile", ""),
        ("webListen", ""),
        ("webPath", "/"),
        ("webPort", "80"),
        ("webURI", ""),
    ]
}

/// The keys of the default settings, in their order.
pub open spec fn default_setting_keys() -> Seq<Seq<char>> {
    default_setting_pairs().map_values(|p: (&'static str, &'static str)| p.0@)
}

proof fn lemma_default_keys_in_order()
    ensures
        texts_increasing(default_setting_keys()),
{
    let ks = default_setting_keys();
    reveal_strlit("changeRetention");
    reveal_strlit("config");
    reveal_strlit("sessionMaxAge");
    reveal_strlit("subCertFile");
    reveal_strlit("subClashExt");
    reveal_strlit("subDomain");
    reveal_strlit("subEncode");
    reveal_strlit("subJsonExt");
    reveal_strlit("subKeyFile");
    reveal_strlit("subListen");
    reveal_strlit("subPath");
    reveal_strlit("subPort");
    reveal_strlit("subShowInfo");
    reveal_strlit("subURI");
    reveal_strlit("subUpdates");
    reveal_strlit("timeLocation");
    reveal_strlit("trafficAge");
    reveal_strlit("version");
    reveal_strlit("webCertFile");
    reveal_strlit("webDomain");
    reveal_strlit("webKeyFile");
    reveal_strlit("webListen");
    reveal_strlit("webPath");
    reveal_strlit("webPort");
    reveal_strlit("webURI");
    reveal_with_fuel(chars_less, 6);
    assert(ks[0] == "changeRetention"@ && ks[1] == "config"@);
    lemma_ascii_text_less(ks[0], ks[1]);
    assert(ks[1] == "config"@ && ks[2] == "sessionMaxAge"@);
    lemma_ascii_text_less(ks[1], ks[2]);
    assert(ks[2] == "sessionMaxAge"@ && ks[3] == "subCertFile"@);
    lemma_ascii_text_less(ks[2], ks[3]);
    assert(ks[3] == "subCertFile"@ && ks[4] == "subClashExt"@);
    lemma_ascii_text_less(ks[3], ks[4]);
    assert(ks[4] == "subClashExt"@ && ks[5] == "subDomain"@);
    lemma_ascii_text_less(ks[4], ks[5]);
    assert(ks[5] == "subDomain"@ && ks[6] == "subEncode"@);
    lemma_ascii_text_less(ks[5], ks[6]);
    assert(ks[6] == "subEncode"@ && ks[7] == "subJsonExt"@);
    lemma_ascii_text_less(ks[6], ks[7]);
    assert(ks[7] == "subJsonExt"@ && ks[8] == "subKeyFile"@);
    lemma_ascii_text_less(ks[7], ks[8]);
    assert(ks[8] == "subKeyFile"@ && ks[9] == "subListen"@);
    lemma_ascii_text_less(ks[8], ks[9]);
    assert(ks[9] == "subListen"@ && ks[10] == "subPath"@);
    lemma_ascii_text_less(ks[9], ks[10]);
    assert(ks[10] == "subPath"@ && ks[11] == "subPort"@);
    lemma_ascii_text_less(ks[10], ks[11]);
    assert(ks[11] == "subPort"@ && ks[12] == "subShowInfo"@);
    lemma_ascii_text_less(ks[11], ks[12]);
    assert(ks[12] == "subShowInfo"@ && ks[13] == "subURI"@);
    lemma_ascii_text_less(ks[12], ks[13]);
    assert(ks[13] == "subURI"@ && ks[14] == "subUpdates"@);
    lemma_ascii_text_less(ks[13], ks[14]);
    assert(ks[14] == "subUpdates"@ && ks[15] == "timeLocation"@);
    lemma_ascii_text_less(ks[14], ks[15]);
    assert(ks[15] == "timeLocation"@ && ks[16] == "trafficAge"@);
    lemma_ascii_text_less(ks[15], ks[16]);
    assert(ks[16] == "trafficAge"@ && ks[17] == "version"@);
    lemma_ascii_text_less(ks[16], ks[17]);
    assert(ks[17] == "version"@ && ks[18] == "webCertFile"@);
    lemma_ascii_text_less(ks[17], ks[18]);
    assert(ks[18] == "webCertFile"@ && ks[19] == "webDomain"@);
    lemma_ascii_text_less(ks[18], ks[19]);
    assert(ks[19] == "webDomain"@ && ks[20] == "webKeyFile"@);
    lemma_ascii_text_less(ks[19], ks[20]);
    assert(ks[20] == "webKeyFile"@ && ks[21] == "webListen"@);
    lemma_ascii_text_less(ks[20], ks[21]);
    assert(ks[21] == "webListen"@ && ks[22] == "webPath"@);
    lemma_ascii_text_less(ks[21], ks[22]);
    assert(ks[22] == "webPath"@ && ks[23] == "webPort"@);
    lemma_ascii_text_less(ks[22], ks[23]);
    assert(ks[23] == "webPort"@ && ks[24] == "webURI"@);
    lemma_ascii_text_less(ks[23], ks[24]);
    lemma_texts_increasing_by_steps(ks);
}

/// The default settings as (key, value) pairs, in increasing key order.
pub fn default_settings() -> (r: Vec<(&'static str, &'static str)>)
    ensures
        r@ == default_setting_pairs(),
        texts_increasing(r@.map_values(|p: (&'static str, &'static str)| p.0@)),
{
    let mut settings: Vec<(&'static str, &'static str)> = Vec::new();
    settings.push(("changeRetention", "1000"));
    settings.push(("config", DEFAULT_CONFIG_JSON));
    settings.push(("sessionMaxAge", "0"));
    settings.push(("subCertFile", ""));
    settings.push(("subClashExt", ""));
    settings.push(("subDomain", ""));
    settings.push(("subEncode", "true"));
    settings.push(("subJsonExt", ""));
    settings.push(("subKeyFile", ""));
    settings.push(("subListen", ""));
    settings.push(("subPath", "/sub/"));
    settings.push(("subPort", "2096"));
    settings.push(("subShowInfo", "false"));
    settings.push(("subURI", ""));
    settings.push(("subUpdates", "12"));
    settings.push(("timeLocation", "UTC"));
    settings.push(("trafficAge", "30"));
    settings.push(("version", APP_VERSION));
    settings.push(("webCertFile", ""));
    settings.push(("webDomain", ""));
    settings.push(("webKeyFile", ""));
    settings.push(("webListen", ""));
    settings.push(("webPath", "/"));
    settings.push(("webPort", "80"));
    settings.push(("webURI", ""));
    proof {
        assert(settings@ =~= default_setting_pairs());
        lemma_default_keys_in_order();
    }
    settings
}

} // verus!
