//! Where the data of the service lives.

use vstd::prelude::*;

use crate::text::{same_text, trimmed};
#[allow(unused_imports)]
use crate::json::opt_view;
#[allow(unused_imports)]
use crate::text::{texts, trim};

verus! {

/// The directory of the store, as the parts of a path: the one that is set, where it is not
/// blank, else `.spire/gis-data` under the home directory, or under the current one where there
/// is no home.
pub open spec fn data_dir_parts(
    set_dir: Option<Seq<char>>,
    home: Option<Seq<char>>,
) -> Seq<Seq<char>> {
    match set_dir {
        Some(d) => if trim(d).len() > 0 {
            seq![trim(d)]
        } else {
            home_dir_parts(home)
        },
        None => home_dir_parts(home),
    }
}

pub open spec fn home_dir_parts(home: Option<Seq<char>>) -> Seq<Seq<char>> {
    match home {
        Some(h) => seq![h, ".spire"@, "gis-data"@],
        None => seq!["."@, ".spire"@, "gis-data"@],
    }
}

/// The directory of the store, as the parts of a path, given the setting for it and the home
/// directory.
pub fn gis_data_dir(set_dir: &Option<String>, home: &Option<String>) -> (r: Vec<String>)
    ensures
        texts(r@) == data_dir_parts(opt_view(*set_dir), opt_view(*home)),
{
    let mut parts: Vec<String> = Vec::new();
    match set_dir {
        Some(d) => {
            let t = trimmed(d.as_str());
            proof {
                reveal_strlit("");
                if t@.len() == 0 {
                    assert(t@ =~= ""@);
                }
            }
            if !same_text(t.as_str(), "") {
                parts.push(t);
                proof {
                    assert(texts(parts@) =~= seq![trim(d@)]);
                }
                return parts;
            }
        },
        None => {},
    }
    parts.push(
        match home {
            Some(h) => h.clone(),
            None => ".".to_owned(),
        },
    );
    parts.push(".spire".to_owned());
    parts.push("gis-data".to_owned());
    proof {
        assert(texts(parts@) =~= home_dir_parts(opt_view(*home)));
    }
    parts
}

} // verus!
