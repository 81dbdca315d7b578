use vstd::prelude::*;
use crate::host::{Host, host_text, texts};
use crate::text::{push_char, push_str};

verus! {

/// A parsed URL. Every component is held in its escaped form.
#[derive(Clone, Debug)]
pub struct URL {
    pub scheme: String,
    pub scheme_data: SchemeData,
    pub query: Option<String>,
    pub fragment: Option<String>,
}

/// What follows the scheme: an authority and path, or an opaque payload.
#[derive(Clone, Debug)]
pub enum SchemeData {
    RelativeSchemeData(SchemeRelativeURL),
    OtherSchemeData(String),
}

/// The authority and path of a URL whose scheme is hierarchical.
#[derive(Clone, Debug)]
pub struct SchemeRelativeURL {
    pub userinfo: Option<UserInfo>,
    pub host: Host,
    pub port: String,
    pub path: Vec<String>,
}

#[derive(Clone, Debug)]
pub struct UserInfo {
    pub username: String,
    pub password: Option<String>,
}

/// `username[:password]@`, or nothing when both are empty or absent.
pub open spec fn userinfo_text(u: Option<UserInfo>) -> Seq<char> {
    match u {
        None => Seq::empty(),
        Some(ui) => if ui.username@.len() > 0 || ui.password is Some {
            ui.username@ + match ui.password {
                None => Seq::<char>::empty(),
                Some(p) => seq![':'] + p@,
            } + seq!['@']
        } else {
            Seq::empty()
        },
    }
}

/// Each segment preceded by `/`.
pub open spec fn segments_text(path: Seq<Seq<char>>) -> Seq<char>
    decreases path.len(),
{
    if path.len() == 0 {
        Seq::empty()
    } else {
        segments_text(path.drop_last()) + seq!['/'] + path.last()
    }
}

/// The path, or `/` when it has no segment.
pub open spec fn path_text(path: Seq<Seq<char>>) -> Seq<char> {
    if path.len() == 0 {
        seq!['/']
    } else {
        segments_text(path)
    }
}

pub open spec fn scheme_data_text(d: SchemeData) -> Seq<char> {
    match d {
        SchemeData::RelativeSchemeData(r) => seq!['/', '/'] + userinfo_text(r.userinfo) + host_text(
            r.host,
        ) + if r.port@.len() > 0 {
            seq![':'] + r.port@
        } else {
            Seq::empty()
        } + path_text(texts(r.path@)),
        SchemeData::OtherSchemeData(s) => s@,
    }
}

/// `text` preceded by `mark`, or nothing when absent.
pub open spec fn marked(mark: char, text: Option<String>) -> Seq<char> {
    match text {
        None => Seq::empty(),
        Some(t) => seq![mark] + t@,
    }
}

/// The text of a URL without its fragment.
pub open spec fn url_text_no_fragment(u: URL) -> Seq<char> {
    u.scheme@ + seq![':'] + scheme_data_text(u.scheme_data) + marked('?', u.query)
}

/// The text of a URL.
pub open spec fn url_text(u: URL) -> Seq<char> {
    url_text_no_fragment(u) + marked('#', u.fragment)
}

fn push_marked(out: &mut String, mark: char, text: &Option<String>)
    ensures
        final(out)@ == old(out)@ + marked(mark, *text),
{
    match text {
        None => {
            assert(final(out)@ =~= old(out)@ + marked(mark, *text));
        },
        Some(t) => {
            push_char(out, mark);
            push_str(out, t.as_str());
            assert(final(out)@ =~= old(out)@ + marked(mark, *text));
        },
    }
}

fn push_userinfo(out: &mut String, userinfo: &Option<UserInfo>)
    ensures
        final(out)@ == old(out)@ + userinfo_text(*userinfo),
{
    match userinfo {
        None => {
            assert(final(out)@ =~= old(out)@ + userinfo_text(*userinfo));
        },
        Some(ui) => {
            if !ui.username.as_str().is_empty() || ui.password.is_some() {
                push_str(out, ui.username.as_str());
                match &ui.password {
                    None => {},
                    Some(p) => {
                        push_char(out, ':');
                        push_str(out, p.as_str());
                    },
                }
                push_char(out, '@');
            }
            assert(final(out)@ =~= old(out)@ + userinfo_text(*userinfo));
        },
    }
}

fn push_path(out: &mut String, path: &Vec<String>)
    ensures
        final(out)@ == old(out)@ + path_text(texts(path@)),
{
    if path.len() == 0 {
        push_char(out, '/');
        return ;
    }
    let mut k: usize = 0;
    while k < path.len()
        invariant
            k <= path@.len(),
            out@ == old(out)@ + segments_text(texts(path@).take(k as int)),
        decreases path@.len() - k,
    {
        proof {
            assert(texts(path@).take(k + 1).drop_last() =~= texts(path@).take(k as int));
        }
        push_char(out, '/');
        push_str(out, path[k].as_str());
        k += 1;
        proof {
            assert(out@ =~= old(out)@ + segments_text(texts(path@).take(k as int)));
        }
    }
    proof {
        assert(texts(path@).take(k as int) =~= texts(path@));
    }
}

impl URL {
    /// The text of the URL, fragment included.
    pub fn serialize(&self) -> (r: String)
        ensures
            r@ == url_text(*self),
    {
        let mut result = self.serialize_no_fragment();
        push_marked(&mut result, '#', &self.fragment);
        result
    }

    /// The text of the URL up to its query.
    pub fn serialize_no_fragment(&self) -> (r: String)
        ensures
            r@ == url_text_no_fragment(*self),
    {
        let mut result = String::new();
        push_str(&mut result, self.scheme.as_str());
        push_char(&mut result, ':');
        match &self.scheme_data {
            SchemeData::RelativeSchemeData(rel) => {
                push_char(&mut result, '/');
                push_char(&mut result, '/');
                push_userinfo(&mut result, &rel.userinfo);
                let host = rel.host.serialize();
                push_str(&mut result, host.as_str());
                if !rel.port.as_str().is_empty() {
                    push_char(&mut result, ':');
                    push_str(&mut result, rel.port.as_str());
                }
                push_path(&mut result, &rel.path);
            },
            SchemeData::OtherSchemeData(data) => {
                push_str(&mut result, data.as_str());
            },
        }
        push_marked(&mut result, '?', &self.query);
        proof {
            assert(result@ =~= url_text_no_fragment(*self));
        }
        result
    }
}

} // verus!
