use vstd::prelude::*;
use crate::outside::{
    fields_view, json_object_text, json_object_text_of, to_lowercase, unicode_lowercase, EventField,
    EventValue,
};
use crate::text::{all_ascii, append, ascii_lower, chars_of, lit, own, string_of, trim, trimmed, vec_eq};

verus! {

// ── Messages to the user ────────────────────────────────────────────────

/// The lines the build shows the user.
pub struct UserInterface;

impl UserInterface {
    /// An informational line (standard output).
    pub fn info_line(message: &str) -> (r: String)
        ensures
            r@ == " [○] :: "@ + message@,
    {
        let mut s = lit(" [○] :: ");
        append(&mut s, &chars_of(message));
        string_of(&s)
    }

    /// An error line (standard error).
    pub fn error_line(message: &str) -> (r: String)
        ensures
            r@ == " [x] :: "@ + message@,
    {
        let mut s = lit(" [x] :: ");
        append(&mut s, &chars_of(message));
        string_of(&s)
    }

    /// A success line (standard output).
    pub fn success_line(message: &str) -> (r: String)
        ensures
            r@ == " [√] :: "@ + message@,
    {
        let mut s = lit(" [√] :: ");
        append(&mut s, &chars_of(message));
        string_of(&s)
    }

    /// A warning line (standard error).
    pub fn warning_line(message: &str) -> (r: String)
        ensures
            r@ == " [!] :: "@ + message@,
    {
        let mut s = lit(" [!] :: ");
        append(&mut s, &chars_of(message));
        string_of(&s)
    }

    /// The confirmation prompt for `prompt`.
    pub fn prompt_line(prompt: &str) -> (r: String)
        ensures
            r@ == "  ? "@ + prompt@ + " [y/N] ❯ "@,
    {
        let mut s = lit("  ? ");
        append(&mut s, &chars_of(prompt));
        append(&mut s, &lit(" [y/N] ❯ "));
        string_of(&s)
    }

    /// A confirmation answer: `y` or `yes`, trimmed, in any case.
    pub fn is_affirmative(answer: &str) -> (r: bool)
        ensures
            r == (unicode_lowercase(trim(answer@)) == "y"@ || unicode_lowercase(trim(answer@)) == "yes"@),
            all_ascii(trim(answer@)) ==> r == ({
                let l = trim(answer@).map_values(|c: char| ascii_lower(c));
                l == "y"@ || l == "yes"@
            }),
    {
        let t = string_of(&trimmed(&chars_of(answer)));
        let l = chars_of(to_lowercase(t.as_str()).as_str());
        vec_eq(&l, &lit("y")) || vec_eq(&l, &lit("yes"))
    }
}

// ── Events ──────────────────────────────────────────────────────────────

/// The messages of the build's event socket: JSON objects with the event
/// and its data.
pub struct EventBus;

/// An event message: the object with the member `event`, the event's
/// name, and the member `data`, its fields (`null` for none).
pub open spec fn event_message(event: Seq<char>, data: Option<Seq<(Seq<char>, bool, Seq<char>, u64)>>) -> Seq<char> {
    json_object_text_of("event"@, event, "data"@, data)
}

fn envelope(event: &str, data: Option<&Vec<EventField>>) -> (r: String)
    ensures
        r@ == event_message(event@, fields_view(match data { Some(d) => Some(d@), None => None })),
{
    json_object_text("event", event, "data", data)
}

impl EventBus {
    /// `{"event": event, "data": {key: value}}`.
    pub fn kv_message(event: &str, key: &str, value: &str) -> (r: String)
        ensures
            r@ == event_message(event@, Some(seq![(key@, true, value@, 0u64)])),
    {
        let fields = vec![EventField { key: own(key), value: EventValue::Text(own(value)) }];
        assert(fields_view(Some(fields@)) =~= Some(seq![(key@, true, value@, 0u64)]));
        envelope(event, Some(&fields))
    }

    /// `{"event": "service", "data": {"name": .., "state": .., "pid": ..}}`.
    pub fn service_message(name: &str, state: &str, pid: u32) -> (r: String)
        ensures
            r@ == event_message(
                "service"@,
                Some(seq![("name"@, true, name@, 0u64), ("state"@, true, state@, 0u64), ("pid"@, false, Seq::<char>::empty(), pid as u64)]),
            ),
    {
        let fields = vec![
            EventField { key: own("name"), value: EventValue::Text(own(name)) },
            EventField { key: own("state"), value: EventValue::Text(own(state)) },
            EventField { key: own("pid"), value: EventValue::Number(pid as u64) },
        ];
        assert(fields_view(Some(fields@)) =~= Some(seq![("name"@, true, name@, 0u64), ("state"@, true, state@, 0u64), ("pid"@, false, Seq::<char>::empty(), pid as u64)]));
        envelope("service", Some(&fields))
    }

    /// `{"event": "boot", "data": {"total_services": .., "failed_services": ..}}`.
    pub fn boot_message(total: usize, failed: usize) -> (r: String)
        ensures
            r@ == event_message(
                "boot"@,
                Some(seq![("total_services"@, false, Seq::<char>::empty(), total as u64), ("failed_services"@, false, Seq::<char>::empty(), failed as u64)]),
            ),
    {
        let fields = vec![
            EventField { key: own("total_services"), value: EventValue::Number(total as u64) },
            EventField { key: own("failed_services"), value: EventValue::Number(failed as u64) },
        ];
        assert(fields_view(Some(fields@)) =~= Some(seq![("total_services"@, false, Seq::<char>::empty(), total as u64), ("failed_services"@, false, Seq::<char>::empty(), failed as u64)]));
        envelope("boot", Some(&fields))
    }

    /// `{"event": "shutdown", "data": null}`.
    pub fn shutdown_message() -> (r: String)
        ensures
            r@ == event_message("shutdown"@, None),
    {
        envelope("shutdown", None)
    }
}

} // verus!
