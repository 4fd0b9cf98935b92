//! Cookies: one cookie with its attributes, and the jar that keeps cookies
//! in the order in which they came.

use crate::http::text::{
    chars_of, decimal, decimal_of, extend, join, push_str, same_text, string_of,
};
use time::{OffsetDateTime, UtcOffset};
use vstd::prelude::*;

verus! {

/// A moment at which a cookie expires: seconds since the start of 1970 in
/// universal time, and the offset from universal time, in seconds, of the
/// clock that the moment is read on.
#[derive(Debug, Clone, Copy, PartialEq, Eq, Structural)]
pub struct Expiry {
    pub unix_seconds: i64,
    pub offset_seconds: i32,
}

/// A cookie: name and value, and the attributes that may go with them.
#[derive(Debug)]
pub struct Cookie {
    pub name: String,
    pub value: String,
    pub expires: Option<Expiry>,
    pub max_age: Option<u64>,
    pub domain: Option<String>,
    pub path: Option<String>,
    pub secure: bool,
    pub http_only: bool,
    pub same_site: Option<String>,
}

/// What a cookie is in contracts.
#[verifier::ext_equal]
pub struct CookieView {
    pub name: Seq<char>,
    pub value: Seq<char>,
    pub expires: Option<Expiry>,
    pub max_age: Option<u64>,
    pub domain: Option<Seq<char>>,
    pub path: Option<Seq<char>>,
    pub secure: bool,
    pub http_only: bool,
    pub same_site: Option<Seq<char>>,
}

/// The characters of a string that may be absent.
pub open spec fn text_view(text: Option<String>) -> Option<Seq<char>> {
    match text {
        Some(text) => Some(text@),
        None => None,
    }
}

impl View for Cookie {
    type V = CookieView;

    open spec fn view(&self) -> CookieView {
        CookieView {
            name: self.name@,
            value: self.value@,
            expires: self.expires,
            max_age: self.max_age,
            domain: text_view(self.domain),
            path: text_view(self.path),
            secure: self.secure,
            http_only: self.http_only,
            same_site: text_view(self.same_site),
        }
    }
}

/// The cookie that has a name and a value and nothing else.
pub open spec fn plain(name: Seq<char>, value: Seq<char>) -> CookieView {
    CookieView {
        name,
        value,
        expires: None,
        max_age: None,
        domain: None,
        path: None,
        secure: false,
        http_only: false,
        same_site: None,
    }
}

/// Whether `name` can name a cookie: it is not empty and holds neither `=`
/// nor `;`.
pub open spec fn valid_name(name: Seq<char>) -> bool {
    &&& name.len() > 0
    &&& forall|i: int| 0 <= i < name.len() ==> #[trigger] name[i] != '=' && name[i] != ';'
}

/// The form of a date in the attribute `Expires`: the day of the week, day,
/// month, year and time of day, followed by `GMT`.
pub open spec fn expires_form() -> Seq<char> {
    "[weekday repr:short], [day] [month repr:short] [year] [hour]:[minute]:[second] GMT"@
}

/// The text that the calendar gives for a moment in a form, if the moment is
/// one that the calendar knows and the form is one that it understands.
pub uninterp spec fn formatted(unix_seconds: i64, offset_seconds: i32, form: Seq<char>) -> Option<
    Seq<char>,
>;

/// The date of the attribute `Expires` of a cookie. A cookie that does not
/// expire has none, and neither has one that expires at a moment outside
/// the calendar.
pub open spec fn date_of(expires: Option<Expiry>) -> Option<Seq<char>> {
    match expires {
        Some(at) => formatted(at.unix_seconds, at.offset_seconds, expires_form()),
        None => None,
    }
}

/// An attribute with a value, or nothing if the value is absent.
pub open spec fn text_part(label: Seq<char>, value: Option<Seq<char>>) -> Seq<char> {
    match value {
        Some(value) => label + value,
        None => seq![],
    }
}

/// The attribute `Max-Age` of a cookie.
pub open spec fn max_age_part(max_age: Option<u64>) -> Seq<char> {
    match max_age {
        Some(seconds) => "; Max-Age="@ + decimal(seconds as nat),
        None => seq![],
    }
}

/// An attribute without a value, or nothing if it is not set.
pub open spec fn flag_part(label: Seq<char>, set: bool) -> Seq<char> {
    if set {
        label
    } else {
        seq![]
    }
}

/// A cookie as text, with a given date for the attribute `Expires`: name,
/// `=`, value, and then each attribute that is set, in the order `Expires`,
/// `Max-Age`, `Domain`, `Path`, `Secure`, `HttpOnly`, `SameSite`.
pub open spec fn rendered(cookie: CookieView, date: Option<Seq<char>>) -> Seq<char> {
    cookie.name + seq!['='] + cookie.value + text_part("; Expires="@, date) + max_age_part(
        cookie.max_age,
    ) + text_part("; Domain="@, cookie.domain) + text_part("; Path="@, cookie.path) + flag_part(
        "; Secure"@,
        cookie.secure,
    ) + flag_part("; HttpOnly"@, cookie.http_only) + text_part("; SameSite="@, cookie.same_site)
}

/// A cookie as text.
pub open spec fn cookie_text(cookie: CookieView) -> Seq<char> {
    rendered(cookie, date_of(cookie.expires))
}

/// Calls `OffsetDateTime::format` of the crate `time`. The moment comes
/// from `OffsetDateTime::from_unix_timestamp` and is moved by
/// `checked_to_offset` to the offset that `UtcOffset::from_whole_seconds`
/// makes; the form is what `format_description::parse_owned` reads from
/// `form`. The text is the one that the calendar gives for these three
/// values, whenever it is asked. There is none where one of the calls
/// refuses its value.
#[verifier::external_body]
pub(crate) fn format_moment(unix_seconds: i64, offset_seconds: i32, form: &str) -> (out: Option<
    String,
>)
    ensures
        out is Some == formatted(unix_seconds, offset_seconds, form@) is Some,
        out matches Some(text) ==> Some(text@) == formatted(unix_seconds, offset_seconds, form@),
{
    let offset = UtcOffset::from_whole_seconds(offset_seconds).ok()?;
    let moment = OffsetDateTime::from_unix_timestamp(unix_seconds).ok()?.checked_to_offset(offset)?;
    let items = time::format_description::parse_owned::<1>(form).ok()?;
    moment.format(&items).ok()
}

/// A copy of a string that may be absent.
pub fn clone_text(text: &Option<String>) -> (out: Option<String>)
    ensures
        out == *text,
{
    match text {
        Some(text) => Some(text.clone()),
        None => None,
    }
}

/// Appends an attribute with a value, if the value is there.
fn push_text_part(text: &mut Vec<char>, label: &str, value: &Option<String>)
    ensures
        final(text)@ == old(text)@ + text_part(label@, text_view(*value)),
{
    match value {
        Some(value) => {
            push_str(text, label);
            push_str(text, value.as_str());
            assert(text@ == old(text)@ + (label@ + value@));
        },
        None => {
            assert(text@ == old(text)@ + Seq::<char>::empty());
        },
    }
}

/// Appends an attribute without a value, if it is set.
fn push_flag_part(text: &mut Vec<char>, label: &str, set: bool)
    ensures
        final(text)@ == old(text)@ + flag_part(label@, set),
{
    if set {
        push_str(text, label);
    } else {
        assert(text@ == old(text)@ + Seq::<char>::empty());
    }
}

impl Clone for Cookie {
    fn clone(&self) -> (out: Self)
        ensures
            out == *self,
    {
        Cookie {
            name: self.name.clone(),
            value: self.value.clone(),
            expires: self.expires,
            max_age: self.max_age,
            domain: clone_text(&self.domain),
            path: clone_text(&self.path),
            secure: self.secure,
            http_only: self.http_only,
            same_site: clone_text(&self.same_site),
        }
    }
}

impl Cookie {
    /// Whether the cookie keeps what is asked of every cookie: a name that
    /// is not empty and holds neither `=` nor `;`.
    pub open spec fn wf(&self) -> bool {
        valid_name(self.name@)
    }

    /// Whether the cookie keeps what is asked of every cookie.
    pub fn valid(&self) -> (out: bool)
        ensures
            out == self.wf(),
    {
        let name = chars_of(self.name.as_str());
        let mut i: usize = 0;
        while i < name.len()
            invariant
                i <= name.len(),
                name@ == self.name@,
                forall|k: int| 0 <= k < i ==> #[trigger] name@[k] != '=' && name@[k] != ';',
            decreases name.len() - i,
        {
            if name[i] == '=' || name[i] == ';' {
                return false;
            }
            i += 1;
        }
        name.len() > 0
    }

    /// A cookie with a name and a value and no attribute.
    pub fn new(name: &str, value: &str) -> (out: Cookie)
        ensures
            out@ == plain(name@, value@),
            out.wf() == valid_name(name@),
    {
        Cookie {
            name: name.to_owned(),
            value: value.to_owned(),
            expires: None,
            max_age: None,
            domain: None,
            path: None,
            secure: false,
            http_only: false,
            same_site: None,
        }
    }

    /// This cookie with a moment at which it expires.
    pub fn expires(self, expires: Expiry) -> (out: Cookie)
        ensures
            out@ == (CookieView { expires: Some(expires), ..self@ }),
    {
        let mut out = self;
        out.expires = Some(expires);
        out
    }

    /// This cookie with a number of seconds after which it expires.
    pub fn max_age(self, max_age: u64) -> (out: Cookie)
        ensures
            out@ == (CookieView { max_age: Some(max_age), ..self@ }),
    {
        let mut out = self;
        out.max_age = Some(max_age);
        out
    }

    /// This cookie with the domain that it is for.
    pub fn domain(self, domain: &str) -> (out: Cookie)
        ensures
            out@ == (CookieView { domain: Some(domain@), ..self@ }),
    {
        let mut out = self;
        out.domain = Some(domain.to_owned());
        out
    }

    /// This cookie with the path that it is for.
    pub fn path(self, path: &str) -> (out: Cookie)
        ensures
            out@ == (CookieView { path: Some(path@), ..self@ }),
    {
        let mut out = self;
        out.path = Some(path.to_owned());
        out
    }

    /// This cookie, for secure connections only or not.
    pub fn secure(self, secure: bool) -> (out: Cookie)
        ensures
            out@ == (CookieView { secure, ..self@ }),
    {
        let mut out = self;
        out.secure = secure;
        out
    }

    /// This cookie, kept from scripts or not.
    pub fn http_only(self, http_only: bool) -> (out: Cookie)
        ensures
            out@ == (CookieView { http_only, ..self@ }),
    {
        let mut out = self;
        out.http_only = http_only;
        out
    }

    /// This cookie with a rule for requests from other sites.
    pub fn same_site(self, same_site: &str) -> (out: Cookie)
        ensures
            out@ == (CookieView { same_site: Some(same_site@), ..self@ }),
    {
        let mut out = self;
        out.same_site = Some(same_site.to_owned());
        out
    }

    /// The date of the attribute `Expires` for a moment.
    pub fn format_expires(expires: &Expiry) -> (out: Option<String>)
        ensures
            text_view(out) == formatted(
                expires.unix_seconds,
                expires.offset_seconds,
                expires_form(),
            ),
    {
        format_moment(
            expires.unix_seconds,
            expires.offset_seconds,
            "[weekday repr:short], [day] [month repr:short] [year] [hour]:[minute]:[second] GMT",
        )
    }

    /// The cookie as text, with a given date for the attribute `Expires`.
    pub fn render(&self, date: &Option<String>) -> (out: String)
        ensures
            out@ == rendered(self@, text_view(*date)),
    {
        let mut text = chars_of(self.name.as_str());
        text.push('=');
        push_str(&mut text, self.value.as_str());
        assert(text@ == self@.name + seq!['='] + self@.value);
        push_text_part(&mut text, "; Expires=", date);
        let ghost dated = text@;
        match self.max_age {
            Some(seconds) => {
                push_str(&mut text, "; Max-Age=");
                let number = decimal_of(seconds);
                extend(&mut text, number.as_slice());
                assert(text@ == dated + ("; Max-Age="@ + decimal(seconds as nat)));
            },
            None => {
                assert(text@ == dated + Seq::<char>::empty());
            },
        }
        push_text_part(&mut text, "; Domain=", &self.domain);
        push_text_part(&mut text, "; Path=", &self.path);
        push_flag_part(&mut text, "; Secure", self.secure);
        push_flag_part(&mut text, "; HttpOnly", self.http_only);
        push_text_part(&mut text, "; SameSite=", &self.same_site);
        string_of(text.as_slice())
    }

    /// The cookie as text.
    pub fn to_string(&self) -> (out: String)
        ensures
            out@ == cookie_text(self@),
    {
        let date = match &self.expires {
            Some(at) => Cookie::format_expires(at),
            None => None,
        };
        self.render(&date)
    }
}

/// Cookies in the order in which they were added. Two cookies may share a
/// name.
#[derive(Debug)]
pub struct CookieJar {
    pub cookies: Vec<Cookie>,
}

impl Clone for CookieJar {
    fn clone(&self) -> (out: Self)
        ensures
            out.cookies@ == self.cookies@,
    {
        let mut cookies: Vec<Cookie> = Vec::new();
        let mut i: usize = 0;
        while i < self.cookies.len()
            invariant
                i <= self.cookies.len(),
                cookies@ == self.cookies@.take(i as int),
            decreases self.cookies.len() - i,
        {
            cookies.push(self.cookies[i].clone());
            assert(self.cookies@.take(i + 1) == self.cookies@.take(i as int).push(
                self.cookies@[i as int],
            ));
            i += 1;
        }
        assert(self.cookies@.take(self.cookies.len() as int) == self.cookies@);
        CookieJar { cookies }
    }
}

/// What a list of cookies is in contracts.
pub open spec fn cookie_views(cookies: Seq<Cookie>) -> Seq<CookieView> {
    Seq::new(cookies.len(), |i: int| cookies[i]@)
}

/// The position of the first cookie with the given name.
pub open spec fn first_named(cookies: Seq<CookieView>, name: Seq<char>) -> Option<int>
    decreases cookies.len(),
{
    if cookies.len() == 0 {
        None
    } else if cookies[0].name == name {
        Some(0)
    } else {
        match first_named(cookies.drop_first(), name) {
            Some(i) => Some(i + 1),
            None => None,
        }
    }
}

/// The cookies whose name is not the given one, in their order.
pub open spec fn without(cookies: Seq<Cookie>, name: Seq<char>) -> Seq<Cookie>
    decreases cookies.len(),
{
    if cookies.len() == 0 {
        seq![]
    } else if cookies.last().name@ == name {
        without(cookies.drop_last(), name)
    } else {
        without(cookies.drop_last(), name).push(cookies.last())
    }
}

/// The texts of cookies, one for each.
pub open spec fn cookie_texts(cookies: Seq<CookieView>) -> Seq<Seq<char>> {
    Seq::new(cookies.len(), |i: int| cookie_text(cookies[i]))
}

/// A jar as text: its cookies with `; ` between them.
pub open spec fn jar_text(cookies: Seq<CookieView>) -> Seq<char> {
    join(cookie_texts(cookies), seq![';', ' '])
}

/// A position that `first_named` reports is inside the list.
pub proof fn lemma_first_named_in_range(cookies: Seq<CookieView>, name: Seq<char>)
    ensures
        first_named(cookies, name) matches Some(i) ==> 0 <= i < cookies.len() && cookies[i].name
            == name,
    decreases cookies.len(),
{
    if cookies.len() > 0 && cookies[0].name != name {
        lemma_first_named_in_range(cookies.drop_first(), name);
    }
}

impl View for CookieJar {
    type V = Seq<CookieView>;

    open spec fn view(&self) -> Seq<CookieView> {
        cookie_views(self.cookies@)
    }
}

impl CookieJar {
    /// A jar without cookies.
    pub fn new() -> (out: CookieJar)
        ensures
            out.cookies@ == Seq::<Cookie>::empty(),
            out@ == Seq::<CookieView>::empty(),
    {
        CookieJar { cookies: Vec::new() }
    }

    /// Puts a cookie behind those that the jar holds.
    pub fn add(&mut self, cookie: Cookie)
        ensures
            final(self).cookies@ == old(self).cookies@.push(cookie),
            final(self)@ == old(self)@.push(cookie@),
    {
        self.cookies.push(cookie);
    }

    /// The first cookie with the given name.
    pub fn get(&self, name: &str) -> (out: Option<&Cookie>)
        ensures
            match first_named(self@, name@) {
                Some(i) => out == Some(&self.cookies@[i]),
                None => out is None,
            },
    {
        let ghost all = self@;
        let mut i: usize = 0;
        assert(all.skip(0) == all);
        while i < self.cookies.len()
            invariant
                i <= self.cookies.len(),
                all == self@,
                match first_named(all.skip(i as int), name@) {
                    Some(k) => first_named(all, name@) == Some(k + i),
                    None => first_named(all, name@) is None,
                },
            decreases self.cookies.len() - i,
        {
            assert(all.skip(i as int)[0] == self.cookies@[i as int]@);
            assert(all.skip(i as int).drop_first() == all.skip(i + 1));
            if same_text(self.cookies[i].name.as_str(), name) {
                return Some(&self.cookies[i]);
            }
            i += 1;
        }
        None
    }

    /// Takes every cookie with the given name out of the jar.
    pub fn remove(&mut self, name: &str)
        ensures
            final(self).cookies@ == without(old(self).cookies@, name@),
    {
        let ghost all = self.cookies@;
        let ghost seen: int = 0;
        let mut i: usize = 0;
        assert(all.take(0) == Seq::<Cookie>::empty());
        assert(self.cookies@ == Seq::<Cookie>::empty() + all.skip(0));
        while i < self.cookies.len()
            invariant
                0 <= seen <= all.len(),
                i == without(all.take(seen), name@).len(),
                self.cookies@ == without(all.take(seen), name@) + all.skip(seen),
            decreases all.len() - seen,
        {
            assert(self.cookies@[i as int] == all[seen]);
            assert(all.take(seen + 1).drop_last() == all.take(seen));
            assert(all.take(seen + 1).last() == all[seen]);
            if same_text(self.cookies[i].name.as_str(), name) {
                let _ = self.cookies.remove(i);
                assert(self.cookies@ == without(all.take(seen + 1), name@) + all.skip(seen + 1));
            } else {
                assert(self.cookies@ == without(all.take(seen + 1), name@) + all.skip(seen + 1));
                i += 1;
            }
            proof {
                seen = seen + 1;
            }
        }
        assert(all.skip(seen).len() == 0);
        assert(all.take(seen) == all);
    }

    /// The jar as text: each cookie as text, with `; ` between them.
    pub fn to_string(&self) -> (out: String)
        ensures
            out@ == jar_text(self@),
    {
        let ghost texts = cookie_texts(self@);
        let mut text: Vec<char> = Vec::new();
        let mut i: usize = 0;
        assert(texts.take(0) == Seq::<Seq<char>>::empty());
        while i < self.cookies.len()
            invariant
                i <= self.cookies.len(),
                texts == cookie_texts(self@),
                text@ == join(texts.take(i as int), seq![';', ' ']),
            decreases self.cookies.len() - i,
        {
            assert(texts.take(i + 1).drop_last() == texts.take(i as int));
            assert(texts.take(i + 1).last() == cookie_text(self.cookies@[i as int]@));
            if i > 0 {
                text.push(';');
                text.push(' ');
            }
            let cookie = self.cookies[i].to_string();
            push_str(&mut text, cookie.as_str());
            i += 1;
        }
        assert(texts.take(self.cookies.len() as int) == texts);
        string_of(text.as_slice())
    }
}

} // verus!
