//! Opening a URL with the desktop's handler: which desktop the environment
//! describes, and which opener commands to try for it, in order.  Spawning
//! the commands is the caller's side.

use vstd::prelude::*;

verus! {

/// Whether `needle` occurs in `hay` as a contiguous substring.
pub open spec fn contains_sub(hay: Seq<char>, needle: Seq<char>) -> bool {
    exists|k: int|
        0 <= k <= hay.len() - needle.len() && #[trigger] hay.subrange(k, k + needle.len())
            == needle
}

/// Substring search, exactly [`contains_sub`].
pub fn contains_sub_exec(hay: &str, needle: &str) -> (r: bool)
    ensures
        r == contains_sub(hay@, needle@),
{
    let n = hay.unicode_len();
    let m = needle.unicode_len();
    if m > n {
        proof {
            if contains_sub(hay@, needle@) {
                let k = choose|k: int|
                    0 <= k <= hay@.len() - needle@.len() && #[trigger] hay@.subrange(
                        k,
                        k + needle@.len(),
                    ) == needle@;
            }
        }
        return false;
    }
    let mut k: usize = 0;
    while k <= n - m
        invariant
            n == hay@.len(),
            m == needle@.len(),
            m <= n,
            k <= n - m + 1,
            forall|q: int|
                0 <= q < k ==> #[trigger] hay@.subrange(q, q + needle@.len()) != needle@,
        decreases n - m - k + 1,
    {
        let mut j: usize = 0;
        let mut hit = true;
        while j < m
            invariant
                n == hay@.len(),
                m == needle@.len(),
                m <= n,
                k <= n - m,
                j <= m,
                hit ==> forall|p: int| 0 <= p < j ==> hay@[k + p] == needle@[p],
                !hit ==> hay@.subrange(k as int, k + needle@.len()) != needle@,
            decreases m - j,
        {
            if hit {
                if hay.get_char(k + j) != needle.get_char(j) {
                    proof {
                        assert(hay@.subrange(k as int, k + needle@.len())[j as int] != needle@[
                        j as int]);
                    }
                    hit = false;
                }
            }
            j += 1;
        }
        if hit {
            proof {
                assert(hay@.subrange(k as int, k + needle@.len()) =~= needle@);
            }
            return true;
        }
        proof {
            if m == 0 {
                assert(hay@.subrange(k as int, k + needle@.len()) =~= needle@);
            }
        }
        k += 1;
    }
    proof {
        if contains_sub(hay@, needle@) {
            let q = choose|q: int|
                0 <= q <= hay@.len() - needle@.len() && #[trigger] hay@.subrange(
                    q,
                    q + needle@.len(),
                ) == needle@;
        }
    }
    false
}

/// The desktop family the (lower-cased) environment values describe, by the
/// same tests the opener uses: GNOME and its derivatives, KDE, MATE, XFCE,
/// or unknown.
pub open spec fn desktop_env_spec(
    xcd: Seq<char>,
    dsession: Seq<char>,
    kde_full: bool,
    kde_ver: bool,
) -> Seq<char> {
    if contains_sub(xcd, "gnome"@) || contains_sub(xcd, "cinnamon"@) || contains_sub(
        dsession,
        "gnome"@,
    ) {
        "gnome"@
    } else if contains_sub(xcd, "kde"@) || kde_full || kde_ver {
        "kde"@
    } else if contains_sub(xcd, "mate"@) || contains_sub(dsession, "mate"@) {
        "mate"@
    } else if contains_sub(xcd, "xfce"@) || contains_sub(dsession, "xfce"@) {
        "xfce"@
    } else {
        "unknown"@
    }
}

/// Classifies the desktop from the lower-cased `XDG_CURRENT_DESKTOP` and
/// `DESKTOP_SESSION` values and the presence of the KDE session variables,
/// exactly as [`desktop_env_spec`] decides it.
pub fn desktop_env(xcd: &str, dsession: &str, kde_full: bool, kde_ver: bool) -> (r: &'static str)
    ensures
        r@ == desktop_env_spec(xcd@, dsession@, kde_full, kde_ver),
{
    if contains_sub_exec(xcd, "gnome") || contains_sub_exec(xcd, "cinnamon") || contains_sub_exec(
        dsession,
        "gnome",
    ) {
        "gnome"
    } else if contains_sub_exec(xcd, "kde") || kde_full || kde_ver {
        "kde"
    } else if contains_sub_exec(xcd, "mate") || contains_sub_exec(dsession, "mate") {
        "mate"
    } else if contains_sub_exec(xcd, "xfce") || contains_sub_exec(dsession, "xfce") {
        "xfce"
    } else {
        "unknown"
    }
}

/// The opener command lines to try for a desktop, in order; the URL is
/// appended to each by the caller.
pub open spec fn handlers_of(desktop: Seq<char>) -> Seq<Seq<Seq<char>>> {
    if desktop == "kde"@ {
        seq![seq!["kde-open"@], seq!["kde-open5"@]]
    } else if desktop == "gnome"@ {
        seq![seq!["gio"@, "open"@], seq!["gvfs-open"@], seq!["gnome-open"@]]
    } else if desktop == "mate"@ {
        seq![seq!["gio"@, "open"@], seq!["gvfs-open"@], seq!["mate-open"@]]
    } else if desktop == "xfce"@ {
        seq![seq!["exo-open"@], seq!["gio"@, "open"@], seq!["gvfs-open"@]]
    } else {
        seq![seq!["xdg-open"@]]
    }
}

/// The opener command lines for a desktop, exactly as [`handlers_of`] lists
/// them.
pub fn handlers(desktop: &str) -> (r: Vec<Vec<String>>)
    ensures
        r.deep_view() == handlers_of(desktop@),
{
    if crate::codec::str_eq_str(desktop, "kde") {
        let r: Vec<Vec<String>> = vec![
            vec!["kde-open".to_owned()],
            vec!["kde-open5".to_owned()],
        ];
        proof {
            assert(r.deep_view() =~~= handlers_of(desktop@));
        }
        r
    } else if crate::codec::str_eq_str(desktop, "gnome") {
        let r: Vec<Vec<String>> = vec![
            vec!["gio".to_owned(), "open".to_owned()],
            vec!["gvfs-open".to_owned()],
            vec!["gnome-open".to_owned()],
        ];
        proof {
            assert(r.deep_view() =~~= handlers_of(desktop@));
        }
        r
    } else if crate::codec::str_eq_str(desktop, "mate") {
        let r: Vec<Vec<String>> = vec![
            vec!["gio".to_owned(), "open".to_owned()],
            vec!["gvfs-open".to_owned()],
            vec!["mate-open".to_owned()],
        ];
        proof {
            assert(r.deep_view() =~~= handlers_of(desktop@));
        }
        r
    } else if crate::codec::str_eq_str(desktop, "xfce") {
        let r: Vec<Vec<String>> = vec![
            vec!["exo-open".to_owned()],
            vec!["gio".to_owned(), "open".to_owned()],
            vec!["gvfs-open".to_owned()],
        ];
        proof {
            assert(r.deep_view() =~~= handlers_of(desktop@));
        }
        r
    } else {
        let r: Vec<Vec<String>> = vec![vec!["xdg-open".to_owned()]];
        proof {
            assert(r.deep_view() =~~= handlers_of(desktop@));
        }
        r
    }
}

} // verus!
