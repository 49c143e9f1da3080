//! `notify message-box`: the report of a dismissed dialog.

use vstd::prelude::*;

use crate::cli::MessageBoxArgs;
use crate::error::Error;
use crate::json::{entries_view, json_bool, json_object, json_str, push_entry, Json, JsonView};

verus! {

/// The report of a dismissed message box.
pub open spec fn message_box_report(title: Seq<char>, message: Seq<char>) -> JsonView {
    JsonView::Object(
        seq![
            ("status"@, JsonView::Str("ok"@)),
            ("type"@, JsonView::Str("message_box"@)),
            ("title"@, JsonView::Str(title)),
            ("message"@, JsonView::Str(message)),
            ("dismissed"@, JsonView::Bool(true)),
        ],
    )
}

/// The outcome of `notify message-box` once the dialog was shown and dismissed (`shown`): its
/// error, or the report.
pub fn run(args: &MessageBoxArgs, shown: Result<(), Error>) -> (r: Result<Json, Error>)
    ensures
        match shown {
            Err(e) => r == Err::<Json, Error>(e),
            Ok(_) => r matches Ok(j) && j@ == message_box_report(args.title@, args.message@),
        },
{
    match shown {
        Err(e) => Err(e),
        Ok(_) => {
            let mut v: Vec<(String, Json)> = Vec::new();
            push_entry(&mut v, "status", json_str("ok"));
            push_entry(&mut v, "type", json_str("message_box"));
            push_entry(&mut v, "title", json_str(args.title.as_str()));
            push_entry(&mut v, "message", json_str(args.message.as_str()));
            push_entry(&mut v, "dismissed", json_bool(true));
            let r = json_object(v);
            assert(entries_view(v@) =~= message_box_report(args.title@, args.message@)->Object_0);
            Ok(r)
        },
    }
}

} // verus!
