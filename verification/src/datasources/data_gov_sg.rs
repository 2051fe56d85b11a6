//! The data.gov.sg driver: its configuration, and the steps from a dataset id to a document.

use vstd::prelude::*;

use crate::json::Json;
use crate::text::{concat, concat3, same_text, text_of_bytes};
#[allow(unused_imports)]
use crate::json::{opt_view, JsonView};
#[allow(unused_imports)]
use crate::text::utf8_complaint;
#[allow(unused_imports)]
use vstd::utf8::{decode_utf8, valid_utf8};

verus! {

/// The kind of the data.gov.sg driver.
pub const KIND: &'static str = "data-gov-sg";

/// How often the service is asked for a download address.
pub const MAX_POLLS: u32 = 8;

/// How long to wait between two requests, in seconds.
pub const POLL_DELAY_SECS: u64 = 3;

/// The data.gov.sg driver; the configuration carries the dataset id.
#[derive(Debug, Clone, Copy, PartialEq, Eq)]
pub struct DataGovSgDriver;

/// A text under a key that is not empty.
pub open spec fn setting(config: JsonView, key: Seq<char>) -> Option<Seq<char>> {
    match config.text_at(key) {
        Some(s) => if s.len() > 0 {
            Some(s)
        } else {
            None
        },
        None => None,
    }
}

fn read_setting<'a>(config: &'a Json, key: &str) -> (r: Option<&'a String>)
    ensures
        match r {
            Some(s) => setting(config@, key@) == Some(s@),
            None => setting(config@, key@) is None,
        },
{
    match config.text_at(key) {
        Some(s) => {
            proof {
                reveal_strlit("");
                if s@.len() == 0 {
                    assert(s@ =~= ""@);
                }
            }
            if same_text(s.as_str(), "") {
                None
            } else {
                Some(s)
            }
        },
        None => None,
    }
}

/// The dataset id of a configuration, the only setting that is required.
pub fn dataset_id(config: &Json) -> (r: Result<String, String>)
    ensures
        match r {
            Ok(id) => setting(config@, "dataset_id"@) == Some(id@),
            Err(e) => setting(config@, "dataset_id"@) is None && e@
                == "data.gov.sg requires config.dataset_id"@,
        },
{
    match read_setting(config, "dataset_id") {
        Some(s) => Ok(s.clone()),
        None => Err("data.gov.sg requires config.dataset_id".to_owned()),
    }
}

/// The address that is asked for a download address.
pub fn poll_url(dataset_id: &str) -> (r: String)
    ensures
        r@ == "https://api-open.data.gov.sg/v1/public/api/datasets/"@ + dataset_id@
            + "/poll-download"@,
{
    concat3(
        "https://api-open.data.gov.sg/v1/public/api/datasets/",
        dataset_id,
        "/poll-download",
    )
}

/// The download address in an answer of the service (`data.url`), if it is ready.
pub open spec fn url_in(body: JsonView) -> Option<Seq<char>> {
    match body.get("data"@) {
        Some(d) => d.text_at("url"@),
        None => None,
    }
}

/// The download address in an answer of the service, if it is ready.
pub fn download_url(body: &Json) -> (r: Option<String>)
    ensures
        opt_view(r) == url_in(body@),
{
    match body.get("data") {
        Some(d) => match d.text_at("url") {
            Some(u) => Some(u.clone()),
            None => None,
        },
        None => None,
    }
}

/// Whether the service is asked once more after so many requests.
pub open spec fn polls_again(polls_made: int) -> bool {
    polls_made < MAX_POLLS
}

/// Whether the service is asked once more after so many requests; the complaint where not.
pub fn may_poll(polls_made: u32) -> (r: Result<(), String>)
    ensures
        r is Ok <==> polls_again(polls_made as int),
        r matches Err(e) ==> e@ == "data.gov.sg poll-download never became ready"@,
{
    if polls_made < MAX_POLLS {
        Ok(())
    } else {
        Err("data.gov.sg poll-download never became ready".to_owned())
    }
}

/// What asking a service leads to that gives these answers in turn: a download address, or none
/// once the requests are used up.
pub open spec fn poll_outcome(answers: Seq<JsonView>, polls_made: int) -> Option<Seq<char>>
    decreases MAX_POLLS - polls_made,
{
    if polls_again(polls_made) {
        match url_in(answers[polls_made]) {
            Some(u) => Some(u),
            None => poll_outcome(answers, polls_made + 1),
        }
    } else {
        None
    }
}

/// Polling downloads from the first address among the allowed answers, and gives up exactly where
/// none of them has one.
pub proof fn polling_takes_the_first_address(answers: Seq<JsonView>, made: int)
    requires
        0 <= made <= MAX_POLLS,
    ensures
        match poll_outcome(answers, made) {
            Some(u) => exists|i: int|
                made <= i < MAX_POLLS && url_in(#[trigger] answers[i]) == Some(u) && forall|j: int|
                    made <= j < i ==> url_in(#[trigger] answers[j]) is None,
            None => forall|i: int| made <= i < MAX_POLLS ==> url_in(#[trigger] answers[i]) is None,
        },
    decreases MAX_POLLS - made,
{
    if made < MAX_POLLS && url_in(answers[made]) is None {
        polling_takes_the_first_address(answers, made + 1);
        if let Some(u) = poll_outcome(answers, made) {
            let i = choose|i: int|
                made + 1 <= i < MAX_POLLS && url_in(#[trigger] answers[i]) == Some(u) && forall|
                    j: int,
                |
                    made + 1 <= j < i ==> url_in(#[trigger] answers[j]) is None;
            assert(url_in(answers[i]) == Some(u));
        }
    } else if made < MAX_POLLS {
        assert(url_in(answers[made]) is Some);
    }
}

/// The downloaded bytes as text, or why they are none.
pub fn dataset_text(bytes: &Vec<u8>) -> (r: Result<String, String>)
    ensures
        match r {
            Ok(t) => valid_utf8(bytes@) && t@ == decode_utf8(bytes@),
            Err(e) => !valid_utf8(bytes@) && e@
                == "dataset is not utf-8 text (zip/shapefile?); GeoJSON text only for now"@,
        },
{
    match text_of_bytes(bytes) {
        Ok(t) => Ok(t),
        Err(_) => Err(
            "dataset is not utf-8 text (zip/shapefile?); GeoJSON text only for now".to_owned(),
        ),
    }
}

/// The downloaded bytes of an import as text; the complaint says what is wrong with them.
pub fn import_text(bytes: &Vec<u8>) -> (r: Result<String, String>)
    ensures
        match r {
            Ok(t) => valid_utf8(bytes@) && t@ == decode_utf8(bytes@),
            Err(e) => !valid_utf8(bytes@) && e@ == "dataset is not utf-8 text (zip/shapefile?): "@
                + utf8_complaint(bytes@),
        },
{
    match text_of_bytes(bytes) {
        Ok(t) => Ok(t),
        Err(e) => Err(concat("dataset is not utf-8 text (zip/shapefile?): ", e.as_str())),
    }
}

/// The name and the description of a dataset: its configured label, else its id.
pub open spec fn dataset_titles(config: JsonView, id: Seq<char>) -> (Seq<char>, Seq<char>) {
    let plain = "data.gov.sg dataset "@ + id;
    match setting(config, "label"@) {
        Some(l) => (l, plain),
        None => (plain, plain),
    }
}

/// The name and the description under which a dataset is shown.
pub fn titles(config: &Json, id: &str) -> (r: (String, String))
    ensures
        (r.0@, r.1@) == dataset_titles(config@, id@),
{
    let plain = concat("data.gov.sg dataset ", id);
    match read_setting(config, "label") {
        Some(l) => (l.clone(), plain),
        None => (plain.clone(), plain),
    }
}

} // verus!
