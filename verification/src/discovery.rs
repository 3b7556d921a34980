//! What the public site tells crawlers.

use vstd::prelude::*;

use crate::artifact::{public_id_list, public_ids, push_framed};
use crate::devices::{DeviceCatalog, device_orders};
use crate::public_pages::{device_canonical, project_canonical};
use crate::repositories::Authority;
use crate::text::{cat3, lemma_views_push, stable_by_key, views};

verus! {

/// The robots policy: everything may be crawled, and the canonical sitemap
/// is named.
pub const ROBOTS_TXT: &'static str = "User-agent: *\nAllow: /\nSitemap: https://mer3ly.net/sitemap.xml\n";

/// The canonical URLs of the fixed pages, in sitemap order.
pub open spec fn fixed_page_urls() -> Seq<Seq<char>> {
    seq![
        "https://mer3ly.net/"@,
        "https://mer3ly.net/radio.html"@,
        "https://mer3ly.net/repos/"@,
        "https://mer3ly.net/devices/"@,
    ]
}

/// The canonical URLs the sitemap lists, with the devices taken in the
/// order `idx` gives: the fixed pages, each public project profile in
/// authority order, then each device profile.
pub open spec fn canonical_urls_in(a: Authority, d: DeviceCatalog, idx: Seq<usize>) -> Seq<Seq<char>> {
    fixed_page_urls() + public_ids(a.repositories.repository@).map_values(|id: Seq<char>| project_canonical(id))
        + idx.map_values(|k: usize| device_canonical(d.device@[k as int].id@))
}

/// The canonical URLs of the public site: the fixed pages, every public
/// project profile in authority order, then every device profile in display
/// order (by `order`, ties in catalog order).
pub fn canonical_urls_from_authority_and_devices(authority: &Authority, devices: &DeviceCatalog) -> (r: Vec<String>)
    ensures
        exists|idx: Seq<usize>|
            #[trigger] stable_by_key(device_orders(devices.device@), idx) && views(r@) == canonical_urls_in(
                *authority,
                *devices,
                idx,
            ),
{
    let mut out: Vec<String> = Vec::new();
    out.push(String::from_str("https://mer3ly.net/"));
    out.push(String::from_str("https://mer3ly.net/radio.html"));
    out.push(String::from_str("https://mer3ly.net/repos/"));
    out.push(String::from_str("https://mer3ly.net/devices/"));
    proof {
        assert(views(out@) =~= fixed_page_urls());
    }
    let public = public_id_list(&authority.repositories.repository);
    push_framed(&mut out, &public, "https://mer3ly.net/projects/", "/");
    proof {
        assert(views(public@).map_values(|x: Seq<char>| "https://mer3ly.net/projects/"@ + x + "/"@) =~= public_ids(
            authority.repositories.repository@,
        ).map_values(|id: Seq<char>| project_canonical(id)));
    }
    let ghost mid = views(out@);
    let ordered = devices.ordered();
    let ghost idx = choose|idx: Seq<usize>|
        #[trigger] stable_by_key(device_orders(devices.device@), idx) && ordered@.len() == idx.len() && forall|k: int|
            0 <= k < idx.len() ==> *ordered@[k] == devices.device@[#[trigger] idx[k] as int];
    let ghost dev = |k: usize| device_canonical(devices.device@[k as int].id@);
    let mut i: usize = 0;
    while i < ordered.len()
        invariant
            i <= ordered@.len(),
            ordered@.len() == idx.len(),
            forall|k: int| 0 <= k < idx.len() ==> *ordered@[k] == devices.device@[#[trigger] idx[k] as int],
            dev == (|k: usize| device_canonical(devices.device@[k as int].id@)),
            views(out@) == mid + idx.take(i as int).map_values(dev),
        decreases ordered.len() - i,
    {
        let ghost prior = out@;
        out.push(cat3("https://mer3ly.net/devices/", ordered[i].id.as_str(), "/"));
        proof {
            lemma_views_push(prior, out@.last());
            assert(*ordered@[i as int] == devices.device@[idx[i as int] as int]);
            assert(idx.take(i + 1) =~= idx.take(i as int).push(idx[i as int]));
            assert(views(out@) =~= mid + idx.take(i + 1).map_values(dev));
        }
        i = i + 1;
    }
    proof {
        assert(idx.take(idx.len() as int) =~= idx);
        assert(views(out@) =~= canonical_urls_in(*authority, *devices, idx));
    }
    out
}

} // verus!
