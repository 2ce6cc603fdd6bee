//! The crate as a whole.

use openpaint::look::{switch_message, Look, Written};
use openpaint::{hello, VERSION};

#[test]
fn core_reports_online() {
    assert_eq!(hello(), "openpaint-core online");
}

#[test]
fn the_version_is_the_packages() {
    assert_eq!(VERSION, "0.1.0");
}

#[test]
fn a_switch_of_look_says_what_came_of_it() {
    assert_eq!(Look::after(false), Look::Paper);
    assert_eq!(Look::after(true), Look::Studio);
    let there = Written::To {
        path: "/data/theme.json".to_owned(),
    };
    assert_eq!(
        switch_message(Look::Paper, &there),
        "Paper. Written to /data/theme.json to edit."
    );
    assert_eq!(
        switch_message(Look::Studio, &Written::Nowhere),
        "Studio. No writable data directory, so it was not saved."
    );
    let failed = Written::Failed {
        why: "disk full".to_owned(),
    };
    assert_eq!(
        switch_message(Look::Studio, &failed),
        "Studio, but it could not be saved: disk full"
    );
}
