//! How each broker's holdings CSV is recognised: the words that identify the
//! broker and the column names that mark a header row.

use vstd::prelude::*;

use crate::models::Broker;
use crate::text::{contains_chars, contains_seq, str_chars};

verus! {

/// The layout settings of one broker's holdings CSV.
pub struct BrokerProfile {
    pub broker: Broker,
    /// The file is this broker's when it contains every one of these words.
    pub detection_keywords: &'static [&'static str],
    /// A row holding every one of these cells is a header row.
    pub header_required_columns: &'static [&'static str],
}

pub open spec fn texts_view(s: Seq<&'static str>) -> Seq<Seq<char>> {
    s.map_values(|t: &'static str| t@)
}

pub open spec fn detection_keywords_of(b: Broker) -> Seq<Seq<char>> {
    match b {
        Broker::Sbi => seq!["預り区分"@, "保有株数"@],
        Broker::Esmart => seq!["銘柄名"@, "銘柄コード"@, "買付単価"@],
    }
}

pub open spec fn header_columns_of(b: Broker) -> Seq<Seq<char>> {
    match b {
        Broker::Sbi => seq!["預り区分"@, "保有株数"@, "取得単価"@],
        Broker::Esmart => seq!["銘柄名"@, "銘柄コード"@, "数量"@],
    }
}

impl BrokerProfile {
    /// The profile carries the fixed settings of its broker.
    pub open spec fn is_profile_of(&self, b: Broker) -> bool {
        &&& self.broker == b
        &&& texts_view(self.detection_keywords@) == detection_keywords_of(b)
        &&& texts_view(self.header_required_columns@) == header_columns_of(b)
    }
}

/// The profile of a broker.
pub fn profile_of(broker: Broker) -> (p: BrokerProfile)
    ensures
        p.is_profile_of(broker),
{
    match broker {
        Broker::Sbi => {
            let p = BrokerProfile {
                broker: Broker::Sbi,
                detection_keywords: &["預り区分", "保有株数"],
                header_required_columns: &["預り区分", "保有株数", "取得単価"],
            };
            assert(texts_view(p.detection_keywords@) =~= detection_keywords_of(broker));
            assert(texts_view(p.header_required_columns@) =~= header_columns_of(broker));
            p
        },
        Broker::Esmart => {
            let p = BrokerProfile {
                broker: Broker::Esmart,
                detection_keywords: &["銘柄名", "銘柄コード", "買付単価"],
                header_required_columns: &["銘柄名", "銘柄コード", "数量"],
            };
            assert(texts_view(p.detection_keywords@) =~= detection_keywords_of(broker));
            assert(texts_view(p.header_required_columns@) =~= header_columns_of(broker));
            p
        },
    }
}

/// Every word of `words` occurs in `text`.
pub open spec fn contains_all(text: Seq<char>, words: Seq<Seq<char>>) -> bool {
    forall|i: int| 0 <= i < words.len() ==> contains_seq(text, #[trigger] words[i])
}

/// The broker whose keywords all occur in `text`, trying SBI first.
pub open spec fn detected_broker(text: Seq<char>) -> Option<Broker> {
    if contains_all(text, detection_keywords_of(Broker::Sbi)) {
        Some(Broker::Sbi)
    } else if contains_all(text, detection_keywords_of(Broker::Esmart)) {
        Some(Broker::Esmart)
    } else {
        None
    }
}

/// Whether every word of `words` occurs in `text`.
pub fn contains_all_words(text: &[char], words: &[&'static str]) -> (r: bool)
    ensures
        r == contains_all(text@, texts_view(words@)),
{
    let mut i: usize = 0;
    while i < words.len()
        invariant
            i <= words@.len(),
            forall|k: int| 0 <= k < i ==> contains_seq(text@, #[trigger] texts_view(words@)[k]),
        decreases words@.len() - i,
    {
        let w = str_chars(words[i]);
        if !contains_chars(text, &w) {
            assert(!contains_seq(text@, texts_view(words@)[i as int]));
            return false;
        }
        i = i + 1;
    }
    true
}

/// The broker of a holdings CSV, told from its content: the first profile,
/// in the order SBI, e-smart, whose detection keywords all occur in the text.
pub fn detect_broker(csv_text: &str) -> (r: Option<BrokerProfile>)
    ensures
        match r {
            Some(p) => detected_broker(csv_text@) == Some(p.broker) && p.is_profile_of(p.broker),
            None => detected_broker(csv_text@) is None,
        },
{
    let text = str_chars(csv_text);
    let sbi = profile_of(Broker::Sbi);
    if contains_all_words(&text, sbi.detection_keywords) {
        return Some(sbi);
    }
    let esmart = profile_of(Broker::Esmart);
    if contains_all_words(&text, esmart.detection_keywords) {
        return Some(esmart);
    }
    None
}

} // verus!
