//! The user's settings: which AI services exist, which one is selected, and
//! the shortcut and login options.

use vstd::prelude::*;

use crate::text::{chars_of, push_str, replace_all, replace_chars, string_of};

verus! {

/// A single AI service the user can send messages to.
///
/// `url_template` contains a `{q}` placeholder that is replaced with the
/// percent-encoded message before the link is opened.
pub struct Service {
    pub name: String,
    pub url_template: String,
}

impl Service {
    pub fn new(name: &str, url_template: &str) -> (r: Self)
        ensures
            r.name@ == name@,
            r.url_template@ == url_template@,
    {
        let mut n = String::new();
        push_str(&mut n, name);
        let mut u = String::new();
        push_str(&mut u, url_template);
        Service { name: n, url_template: u }
    }

    /// Build a launchable URL for `message` (already percent-encoded).
    pub fn url_for(&self, encoded_message: &str) -> (r: String)
        ensures
            r@ == replace_all(self.url_template@, "{q}"@, encoded_message@),
    {
        let t = chars_of(self.url_template.as_str());
        let pat = chars_of("{q}");
        let rep = chars_of(encoded_message);
        proof {
            reveal_strlit("{q}");
        }
        string_of(replace_chars(t.as_slice(), pat.as_slice(), rep.as_slice()).as_slice())
    }
}

/// Whether the global shortcut is on when the file does not say.
pub fn default_true() -> (r: bool)
    ensures
        r,
{
    true
}

pub struct Config {
    /// Whether the global shortcut is active.
    pub enabled: bool,
    /// Name of the currently selected [`Service`].
    pub selected_service: String,
    /// GTK accelerator string, e.g. `<Control><Shift>space`.
    pub shortcut: String,
    /// Whether to launch the background service on login.
    pub start_on_login: bool,
    /// The configurable list of services.
    pub services: Vec<Service>,
}

pub open spec fn service_names(services: Seq<Service>) -> Seq<Seq<char>> {
    services.map_values(|s: Service| s.name@)
}

impl Default for Config {
    fn default() -> (r: Self)
        ensures
            r.enabled,
            r.selected_service@ == "ChatGPT"@,
            r.shortcut@ == "<Control><Shift>space"@,
            r.start_on_login,
            r.services@.len() == 3,
            r.services@[0].name@ == "ChatGPT"@,
            r.services@[0].url_template@ == "https://chatgpt.com/?q={q}"@,
            r.services@[1].name@ == "Gemini"@,
            r.services@[1].url_template@ == "https://gemini.google.com/app?q={q}"@,
            r.services@[2].name@ == "Mistral"@,
            r.services@[2].url_template@ == "https://chat.mistral.ai/chat?q={q}"@,
    {
        let mut selected = String::new();
        push_str(&mut selected, "ChatGPT");
        let mut shortcut = String::new();
        push_str(&mut shortcut, "<Control><Shift>space");
        let mut services: Vec<Service> = Vec::new();
        services.push(Service::new("ChatGPT", "https://chatgpt.com/?q={q}"));
        services.push(Service::new("Gemini", "https://gemini.google.com/app?q={q}"));
        services.push(Service::new("Mistral", "https://chat.mistral.ai/chat?q={q}"));
        Config {
            enabled: true,
            selected_service: selected,
            shortcut,
            start_on_login: true,
            services,
        }
    }
}

/// Index of the first service named `name`.
pub open spec fn service_named(names: Seq<Seq<char>>, name: Seq<char>) -> Option<int>
    decreases names.len(),
{
    if names.len() == 0 {
        None
    } else if names[0] == name {
        Some(0)
    } else {
        match service_named(names.drop_first(), name) {
            Some(i) => Some(i + 1),
            None => None,
        }
    }
}

/// Index of the current service: the selected one, else the first.
pub open spec fn current_service_index(names: Seq<Seq<char>>, selected: Seq<char>) -> Option<int> {
    match service_named(names, selected) {
        Some(i) => Some(i),
        None => if names.len() > 0 { Some(0) } else { None },
    }
}

impl Config {
    /// The currently selected service, falling back to the first one.
    pub fn current_service(&self) -> (r: Option<&Service>)
        ensures
            match current_service_index(service_names(self.services@), self.selected_service@) {
                Some(i) => r == Some(&self.services@[i]),
                None => r is None,
            },
    {
        let ghost names = service_names(self.services@);
        let sel = chars_of(self.selected_service.as_str());
        let mut i: usize = 0;
        assert(names.skip(0) == names);
        while i < self.services.len()
            invariant
                i <= self.services.len(),
                names == service_names(self.services@),
                sel@ == self.selected_service@,
                service_named(names.skip(i as int), sel@) matches Some(k) ==> service_named(names, sel@) == Some(k + i),
                service_named(names.skip(i as int), sel@) is None ==> service_named(names, sel@) is None,
            decreases self.services.len() - i,
        {
            let ghost rest = names.skip(i as int);
            assert(rest[0] == self.services@[i as int].name@);
            assert(rest.drop_first() == names.skip(i + 1));
            let n = chars_of(self.services[i].name.as_str());
            if crate::text::chars_eq(n.as_slice(), sel.as_slice()) {
                assert(service_named(rest, sel@) == Some(0int));
                return Some(&self.services[i]);
            }
            i = i + 1;
        }
        if self.services.len() > 0 {
            Some(&self.services[0])
        } else {
            None
        }
    }
}

} // verus!
