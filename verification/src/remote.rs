//! Remote-catalog decisions: the chart-list request URL, the selection of
//! downloadable skins from a repository listing, status-code and archive
//! naming rules.  The HTTP requests themselves, and the JSON bodies of the
//! chart and skin listings, are the I/O layer's work; it hands the library
//! plain values.

use vstd::prelude::*;
use crate::digest::hex_digit_char;

verus! {

/// A chart as the remote catalog lists it.
pub struct ChartSummary {
    pub id: String,
    pub title: String,
    pub artist: String,
    pub designer: String,
    pub uploader: String,
    pub levels: Vec<Option<String>>,
}

/// One file of the skin repository listing, as the I/O layer hands it in;
/// a directory entry carries no download URL.
pub struct GithubFile {
    pub name: String,
    pub download_url: Option<String>,
    pub size: u64,
}

/// A downloadable skin.
pub struct GithubSkin {
    pub name: String,
    pub download_url: String,
    pub size: u64,
}

/// The skins among the listed files: those with a download URL, in
/// listing order.
pub open spec fn skins_of(files: Seq<GithubFile>) -> Seq<GithubSkin>
    decreases files.len(),
{
    if files.len() == 0 {
        Seq::empty()
    } else {
        let rest = skins_of(files.drop_last());
        if files.last().download_url is Some {
            rest.push(
                GithubSkin {
                    name: files.last().name,
                    download_url: files.last().download_url->Some_0,
                    size: files.last().size,
                },
            )
        } else {
            rest
        }
    }
}

/// Keeps the listed files that can be downloaded, in listing order.
pub fn select_skins(files: Vec<GithubFile>) -> (r: Vec<GithubSkin>)
    ensures
        r@ == skins_of(files@),
{
    let ghost fm = files@;
    let n = files.len();
    let mut r: Vec<GithubSkin> = Vec::new();
    let mut i: usize = 0;
    while i < n
        invariant
            n == fm.len(),
            fm == files@,
            i <= n,
            r@ == skins_of(fm.subrange(0, i as int)),
        decreases n - i,
    {
        let ghost prev = r@;
        let f = &files[i];
        match &f.download_url {
            Option::Some(url) => {
                r.push(
                    GithubSkin { name: f.name.clone(), download_url: url.clone(), size: f.size },
                );
            },
            Option::None => {},
        }
        proof {
            assert(fm.subrange(0, i + 1).drop_last() =~= fm.subrange(0, i as int));
            assert(fm.subrange(0, i + 1).last() == fm[i as int]);
            if fm[i as int].download_url is Some {
                assert(r@ =~= prev.push(r@[prev.len() as int]));
            }
        }
        i = i + 1;
    }
    proof {
        assert(fm.subrange(0, n as int) =~= fm);
    }
    r
}

/// The sort keyword the catalog API expects for each sort mode; modes
/// outside the known range sort by default.
pub open spec fn sort_param_spec(sort_type: int) -> Seq<char> {
    if sort_type == 1 {
        "likep"@
    } else if sort_type == 2 {
        "commp"@
    } else if sort_type == 3 {
        "playp"@
    } else {
        ""@
    }
}

/// The decimal digits of a non-negative number.
pub open spec fn dec_nat(n: nat) -> Seq<char>
    decreases n,
{
    if n < 10 {
        seq![hex_digit_char(n as u8)]
    } else {
        dec_nat(n / 10) + seq![hex_digit_char((n % 10) as u8)]
    }
}

/// The decimal form of an integer, with a leading minus for negatives.
pub open spec fn dec_int(n: int) -> Seq<char> {
    if n < 0 {
        seq!['-'] + dec_nat((-n) as nat)
    } else {
        dec_nat(n as nat)
    }
}

fn u64_to_dec(n: u64) -> (r: String)
    ensures
        r@ == dec_nat(n as nat),
    decreases n,
{
    if n < 10 {
        let r = String::from_str(crate::digest::hex_digit_str(n as u8));
        proof {
            assert(r@ =~= dec_nat(n as nat));
        }
        r
    } else {
        let mut r = u64_to_dec(n / 10);
        r.append(crate::digest::hex_digit_str((n % 10) as u8));
        proof {
            assert(r@ =~= dec_nat(n as nat));
        }
        r
    }
}

/// The decimal form of a 32-bit integer.
pub fn i32_to_dec(n: i32) -> (r: String)
    ensures
        r@ == dec_int(n as int),
{
    if n < 0 {
        let mut r = String::from_str("-");
        proof {
            reveal_strlit("-");
        }
        let wide: i64 = n as i64;
        r.append(u64_to_dec((-wide) as u64).as_str());
        proof {
            assert(r@ =~= seq!['-'] + dec_nat((-(n as int)) as nat));
        }
        r
    } else {
        u64_to_dec(n as u64)
    }
}

/// What the percent-encoding of a string is: a function of its characters
/// alone.
pub uninterp spec fn url_encoded_of(s: Seq<char>) -> Seq<char>;

/// Relies on urlencoding's `encode`: the percent-encoded form of the
/// search text, determined by its characters alone.
#[verifier::external_body]
fn url_encode(s: &str) -> (r: String)
    ensures
        r@ == url_encoded_of(s@),
{
    urlencoding::encode(s).into_owned()
}

/// The chart-list request URL for a search, a sort mode and a page: the
/// fixed endpoint with the sort keyword, the page number and the
/// percent-encoded search text filled in.
pub fn chart_list_url(search: &str, sort_type: i32, page: i32) -> (r: String)
    ensures
        r@ == "https://majdata.net/api3/api/maichart/list?sort="@ + sort_param_spec(
            sort_type as int,
        ) + "&page="@ + dec_int(page as int) + "&search="@ + url_encoded_of(search@),
{
    let mut r = String::from_str("https://majdata.net/api3/api/maichart/list?sort=");
    if sort_type == 1 {
        r.append("likep");
    } else if sort_type == 2 {
        r.append("commp");
    } else if sort_type == 3 {
        r.append("playp");
    } else {
        r.append("");
    }
    r.append("&page=");
    r.append(i32_to_dec(page).as_str());
    r.append("&search=");
    r.append(url_encode(search).as_str());
    r
}

/// An HTTP status code that counts as success: the 2xx range, as the
/// transport reports it.
pub fn http_status_ok(code: u16) -> (r: bool)
    ensures
        r == (200 <= code < 300),
{
    200 <= code && code < 300
}

/// The folder name a skin archive unpacks into: the archive name with any
/// trailing `.zip` suffixes removed.
pub open spec fn skin_folder_of(name: Seq<char>) -> Seq<char>
    decreases name.len(),
{
    if name.len() >= 4 && name.subrange(name.len() - 4, name.len() as int) == ".zip"@ {
        skin_folder_of(name.subrange(0, name.len() - 4))
    } else {
        name
    }
}

/// Strips every trailing `.zip` from an archive name.
pub fn skin_folder_name(name: &str) -> (r: String)
    ensures
        r@ == skin_folder_of(name@),
{
    let len = name.unicode_len();
    proof {
        reveal_strlit(".zip");
        assert(name@.subrange(0, len as int) =~= name@);
    }
    let mut end: usize = len;
    while end >= 4 && name.get_char(end - 1) == 'p' && name.get_char(end - 2) == 'i'
        && name.get_char(end - 3) == 'z' && name.get_char(end - 4) == '.'
        invariant
            len == name@.len(),
            end <= len,
            skin_folder_of(name@) == skin_folder_of(name@.subrange(0, end as int)),
        decreases end,
    {
        proof {
            reveal_strlit(".zip");
            let cur = name@.subrange(0, end as int);
            assert(cur.subrange(end - 4, end as int) =~= ".zip"@) by {
                assert(cur.subrange(end - 4, end as int)[0] == name@[end - 4]);
                assert(cur.subrange(end - 4, end as int)[1] == name@[end - 3]);
                assert(cur.subrange(end - 4, end as int)[2] == name@[end - 2]);
                assert(cur.subrange(end - 4, end as int)[3] == name@[end - 1]);
            }
            assert(cur.subrange(0, end - 4) =~= name@.subrange(0, end - 4));
        }
        end = end - 4;
    }
    proof {
        reveal_strlit(".zip");
        let cur = name@.subrange(0, end as int);
        if end >= 4 {
            assert(cur.subrange(end - 4, end as int) != ".zip"@) by {
                if cur.subrange(end - 4, end as int) == ".zip"@ {
                    assert(cur.subrange(end - 4, end as int)[3] == name@[end - 1]);
                    assert(cur.subrange(end - 4, end as int)[2] == name@[end - 2]);
                    assert(cur.subrange(end - 4, end as int)[1] == name@[end - 3]);
                    assert(cur.subrange(end - 4, end as int)[0] == name@[end - 4]);
                }
            }
        }
        assert(skin_folder_of(cur) == cur);
    }
    name.substring_char(0, end).to_owned()
}

} // verus!
