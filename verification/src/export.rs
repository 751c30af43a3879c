//! The sidebar written out as a Nix configuration.

use vstd::prelude::*;
use crate::model::SidebarItemInfo;
use crate::text::{chars_of, has_prefix, starts_with, string_of_range};

verus! {

/// The path an exported item shows: its path (`~` when it has none), with the
/// home directory written as `~` when it is known and the path is the home
/// directory itself or lies under it (the rest is empty or starts with `/`).
pub open spec fn nix_path(path: Option<Seq<char>>, home: Seq<char>) -> Seq<char> {
    let p = match path {
        Some(p) => p,
        None => seq!['~'],
    };
    if home.len() > 0 && starts_with(p, home) && (p.len() == home.len() || p[home.len() as int] == '/') {
        seq!['~'] + p.skip(home.len() as int)
    } else {
        p
    }
}

/// Law: an exported path reads back as the item's path. When the path is the
/// home directory or lies under it, what is written is `~` followed by the
/// rest of the path after the home directory, so putting the home directory
/// back in place of the `~` gives the path again; any other path is written
/// as it is.
pub proof fn law_exported_path_expands_back(p: Seq<char>, home: Seq<char>)
    ensures
        (home.len() > 0 && starts_with(p, home) && (p.len() == home.len() || p[home.len() as int] == '/'))
            ==> {
            &&& nix_path(Some(p), home) == seq!['~'] + p.skip(home.len() as int)
            &&& nix_path(Some(p), home).len() >= 1
            &&& nix_path(Some(p), home)[0] == '~'
            &&& home + nix_path(Some(p), home).skip(1) == p
        },
        !(home.len() > 0 && starts_with(p, home) && (p.len() == home.len() || p[home.len() as int] == '/'))
            ==> nix_path(Some(p), home) == p,
{
    if home.len() > 0 && starts_with(p, home) && (p.len() == home.len() || p[home.len() as int] == '/') {
        let w = nix_path(Some(p), home);
        assert(w.skip(1) =~= p.skip(home.len() as int));
        assert(home + p.skip(home.len() as int) =~= p) by {
            assert(p.take(home.len() as int) == home);
        }
    }
}

/// The Nix attribute set of one item.
pub open spec fn nix_item(it: SidebarItemInfo, home: Seq<char>) -> Seq<char> {
    "      {\n"@ + "        name = \""@ + it.name@ + "\";\n"@ + "        path = \""@ + nix_path(
        it.path.deep_view(),
        home,
    ) + "\";\n"@ + "      }\n"@
}

/// The Nix attribute sets of all items, in order.
pub open spec fn nix_items(items: Seq<SidebarItemInfo>, home: Seq<char>) -> Seq<char>
    decreases items.len(),
{
    if items.len() == 0 {
        Seq::empty()
    } else {
        nix_items(items.drop_last(), home) + nix_item(items.last(), home)
    }
}

/// The whole Nix configuration.
pub open spec fn nix_config(items: Seq<SidebarItemInfo>, keep_unmanaged: bool, home: Seq<char>) -> Seq<char> {
    "{\n"@ + "  programs.findbar = {\n"@ + "    enable = true;\n"@ + (if keep_unmanaged {
        "    keepUnmanaged = true;\n"@
    } else {
        Seq::empty()
    }) + "    items = [\n"@ + nix_items(items, home) + "    ];\n"@ + "  };\n"@ + "}\n"@
}

fn display_path(path: &Option<String>, home: &str) -> (out: String)
    ensures
        out@ == nix_path(path.deep_view(), home@),
{
    let p = match path {
        Some(p) => chars_of(p.as_str()),
        None => {
            let v = vec!['~'];
            assert(v@ =~= seq!['~']);
            v
        },
    };
    let h = chars_of(home);
    if h.len() > 0 && has_prefix(&p, &h) && (p.len() == h.len() || p[h.len()] == '/') {
        let mut out = "~".to_owned();
        proof {
            reveal_strlit("~");
        }
        let rest = string_of_range(&p, h.len(), p.len());
        out.append(rest.as_str());
        assert(p@.subrange(h@.len() as int, p@.len() as int) =~= p@.skip(h@.len() as int));
        assert(out@ =~= seq!['~'] + p@.skip(h@.len() as int));
        out
    } else {
        string_of_range(&p, 0, p.len())
    }
}

/// Writes the items as a Nix configuration for the `programs.findbar`
/// module, with `keepUnmanaged` set when asked; paths under `home` (the home
/// directory, empty when unknown) are written with `~`.
pub fn export_nix(items: &[SidebarItemInfo], keep_unmanaged: bool, home: &str) -> (out: String)
    ensures
        out@ == nix_config(items@, keep_unmanaged, home@),
{
    let mut out = String::new();
    out.append("{\n");
    out.append("  programs.findbar = {\n");
    out.append("    enable = true;\n");
    if keep_unmanaged {
        out.append("    keepUnmanaged = true;\n");
    }
    out.append("    items = [\n");
    let ghost head = out@;
    let mut i: usize = 0;
    assert(items@.take(0) =~= Seq::<SidebarItemInfo>::empty());
    while i < items.len()
        invariant
            i <= items@.len(),
            out@ == head + nix_items(items@.take(i as int), home@),
        decreases items.len() - i,
    {
        let it = &items[i];
        out.append("      {\n");
        out.append("        name = \"");
        out.append(it.name.as_str());
        out.append("\";\n");
        out.append("        path = \"");
        let dp = display_path(&it.path, home);
        out.append(dp.as_str());
        out.append("\";\n");
        out.append("      }\n");
        proof {
            assert(items@.take(i + 1).drop_last() =~= items@.take(i as int));
            assert(items@.take(i + 1).last() == items@[i as int]);
            assert(out@ =~= head + nix_items(items@.take(i + 1), home@));
        }
        i = i + 1;
    }
    assert(items@.take(items@.len() as int) =~= items@);
    out.append("    ];\n");
    out.append("  };\n");
    out.append("}\n");
    assert(out@ =~= nix_config(items@, keep_unmanaged, home@));
    out
}

} // verus!
