//! `notify system`: the report of a desktop notification.

use vstd::prelude::*;

use crate::cli::SystemArgs;
use crate::error::Error;
use crate::json::{entries_view, json_bool, json_object, json_str, push_entry, Json, JsonView};

verus! {

/// The report of a shown notification.
pub open spec fn system_report(title: Seq<char>, description: Seq<char>) -> JsonView {
    JsonView::Object(
        seq![
            ("status"@, JsonView::Str("ok"@)),
            ("type"@, JsonView::Str("system_notification"@)),
            ("title"@, JsonView::Str(title)),
            ("description"@, JsonView::Str(description)),
            ("delivered"@, JsonView::Bool(true)),
        ],
    )
}

/// The outcome of `notify system` once the notification was attempted (`shown`): its error,
/// or the report.
pub fn run(args: &SystemArgs, shown: Result<(), Error>) -> (r: Result<Json, Error>)
    ensures
        match shown {
            Err(e) => r == Err::<Json, Error>(e),
            Ok(_) => r matches Ok(j) && j@ == system_report(args.title@, args.description@),
        },
{
    match shown {
        Err(e) => Err(e),
        Ok(_) => {
            let mut v: Vec<(String, Json)> = Vec::new();
            push_entry(&mut v, "status", json_str("ok"));
            push_entry(&mut v, "type", json_str("system_notification"));
            push_entry(&mut v, "title", json_str(args.title.as_str()));
            push_entry(&mut v, "description", json_str(args.description.as_str()));
            push_entry(&mut v, "delivered", json_bool(true));
            let r = json_object(v);
            assert(entries_view(v@) =~= system_report(args.title@, args.description@)->Object_0);
            Ok(r)
        },
    }
}

} // verus!
