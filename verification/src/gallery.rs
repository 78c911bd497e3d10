//! The HTML page that shows the saved images.

use vstd::prelude::*;

verus! {

pub const PAGE_HEAD: &'static str = "<html><head><title>Galería Mandelbrot</title><meta charset=\"UTF-8\">";

pub const PAGE_STYLE: &'static str = "<style>
        body { font-family: system-ui, sans-serif; background: #121212; color: #ffffff; padding: 2rem; }
        h1 { text-align: center; margin-bottom: 2rem; }
        .gallery { display: grid; grid-template-columns: repeat(auto-fill, minmax(300px, 1fr)); gap: 20px; }
        .card { background: #1e1e1e; padding: 15px; border-radius: 12px; text-align: center; box-shadow: 0 4px 6px rgba(0,0,0,0.3); }
        .card img { max-width: 100%; height: auto; border-radius: 8px; transition: transform 0.2s; }
        .card img:hover { transform: scale(1.05); }
        .card a { color: #64b5f6; text-decoration: none; font-size: 0.9em; display: block; margin-top: 10px; word-break: break-all; }
    </style></head><body>";

pub const PAGE_TITLE: &'static str = "<h1>Galería de Fractales Generados</h1>";

pub const GALLERY_OPEN: &'static str = "<div class=\"gallery\">";

pub const CARD_OPEN: &'static str = "<div class=\"card\">
                            <a href=\"";

pub const CARD_AFTER_LINK: &'static str = "\" target=\"_blank\">
                                <img src=\"";

pub const CARD_AFTER_SRC: &'static str = "\" alt=\"";

pub const CARD_AFTER_ALT: &'static str = "\" loading=\"lazy\" />
                            </a>
                            <a href=\"";

pub const CARD_AFTER_SECOND_LINK: &'static str = "\" target=\"_blank\">Ver Tamaño Completo<br><small>";

pub const CARD_CLOSE: &'static str = "</small></a>
                        </div>";

pub const NO_IMAGES: &'static str = "<p style='text-align: center; grid-column: 1 / -1;'>No hay imágenes generadas todavía. ¡Lanza algunos workers!</p>";

pub const PAGE_CLOSE: &'static str = "</div></body></html>";

pub const IMAGES_PREFIX: &'static str = "/images/";

/// Where the image `f` is served.
pub open spec fn image_url(f: Seq<char>) -> Seq<char> {
    IMAGES_PREFIX@ + f
}

/// The card that shows the image `f`.
pub open spec fn card(f: Seq<char>) -> Seq<char> {
    CARD_OPEN@ + image_url(f) + CARD_AFTER_LINK@ + image_url(f) + CARD_AFTER_SRC@ + f
        + CARD_AFTER_ALT@ + image_url(f) + CARD_AFTER_SECOND_LINK@ + f + CARD_CLOSE@
}

/// The cards of the images `fs`, in order.
pub open spec fn cards(fs: Seq<Seq<char>>) -> Seq<char>
    decreases fs.len(),
{
    if fs.len() == 0 {
        Seq::empty()
    } else {
        cards(fs.drop_last()) + card(fs.last())
    }
}

/// The gallery page: the cards of the listed images, or a notice when the
/// image directory could not be listed.
pub open spec fn gallery_page(listing: Option<Seq<Seq<char>>>) -> Seq<char> {
    PAGE_HEAD@ + PAGE_STYLE@ + PAGE_TITLE@ + GALLERY_OPEN@ + match listing {
        Some(fs) => cards(fs),
        None => NO_IMAGES@,
    } + PAGE_CLOSE@
}

/// The names of the files, as text.
pub open spec fn names_of(files: Seq<String>) -> Seq<Seq<char>> {
    files.map_values(|f: String| f@)
}

/// Builds the gallery page from the names of the PNG files found in the
/// image directory, or from `None` when it could not be read.
pub fn image_gallery(listing: Option<Vec<String>>) -> (html: String)
    ensures
        html@ == gallery_page(
            match listing {
                Some(fs) => Some(names_of(fs@)),
                None => None,
            },
        ),
{
    let mut html = PAGE_HEAD.to_string();
    html.append(PAGE_STYLE);
    html.append(PAGE_TITLE);
    html.append(GALLERY_OPEN);
    let ghost start = html@;
    match &listing {
        Some(files) => {
            let mut i: usize = 0;
            while i < files.len()
                invariant
                    i <= files@.len(),
                    html@ == start + cards(names_of(files@.subrange(0, i as int))),
                decreases files@.len() - i,
            {
                let f = files[i].as_str();
                let mut url = IMAGES_PREFIX.to_string();
                url.append(f);
                html.append(CARD_OPEN);
                html.append(url.as_str());
                html.append(CARD_AFTER_LINK);
                html.append(url.as_str());
                html.append(CARD_AFTER_SRC);
                html.append(f);
                html.append(CARD_AFTER_ALT);
                html.append(url.as_str());
                html.append(CARD_AFTER_SECOND_LINK);
                html.append(f);
                html.append(CARD_CLOSE);
                proof {
                    let pre = names_of(files@.subrange(0, i as int));
                    let post = names_of(files@.subrange(0, i as int + 1));
                    assert(post.drop_last() =~= pre);
                    assert(post.last() == files@[i as int]@);
                }
                i = i + 1;
            }
            assert(files@.subrange(0, files@.len() as int) =~= files@);
        },
        None => {
            html.append(NO_IMAGES);
        },
    }
    html.append(PAGE_CLOSE);
    html
}

/// `needle` occurs somewhere in `hay`.
pub open spec fn occurs_in(needle: Seq<char>, hay: Seq<char>) -> bool {
    exists|off: int|
        0 <= off && off + needle.len() <= hay.len() && #[trigger] hay.subrange(off, off + needle.len())
            == needle
}

proof fn lemma_occurs_mid(pre: Seq<char>, mid: Seq<char>, post: Seq<char>)
    ensures
        occurs_in(mid, pre + mid + post),
{
    let hay = pre + mid + post;
    assert(hay.subrange(pre.len() as int, (pre.len() + mid.len()) as int) =~= mid);
}

proof fn lemma_occurs_trans(x: Seq<char>, y: Seq<char>, z: Seq<char>)
    requires
        occurs_in(x, y),
        occurs_in(y, z),
    ensures
        occurs_in(x, z),
{
    let o1 = choose|off: int| 0 <= off && off + x.len() <= y.len() && #[trigger] y.subrange(off, off + x.len()) == x;
    let o2 = choose|off: int| 0 <= off && off + y.len() <= z.len() && #[trigger] z.subrange(off, off + y.len()) == y;
    assert(z.subrange(o2 + o1, o2 + o1 + x.len()) =~= y.subrange(o1, o1 + x.len()));
}

proof fn lemma_card_in_cards(fs: Seq<Seq<char>>, i: int)
    requires
        0 <= i < fs.len(),
    ensures
        occurs_in(card(fs[i]), cards(fs)),
    decreases fs.len(),
{
    let pre = cards(fs.drop_last());
    if i == fs.len() - 1 {
        lemma_occurs_mid(pre, card(fs[i]), Seq::empty());
        assert(pre + card(fs[i]) + Seq::<char>::empty() =~= cards(fs));
    } else {
        lemma_card_in_cards(fs.drop_last(), i);
        assert(fs.drop_last()[i] == fs[i]);
        lemma_occurs_mid(Seq::empty(), pre, card(fs.last()));
        assert(Seq::<char>::empty() + pre + card(fs.last()) =~= cards(fs));
        lemma_occurs_trans(card(fs[i]), pre, cards(fs));
    }
}

proof fn lemma_in_page(fs: Seq<Seq<char>>, i: int, x: Seq<char>)
    requires
        0 <= i < fs.len(),
        occurs_in(x, card(fs[i])),
    ensures
        occurs_in(x, gallery_page(Some(fs))),
{
    lemma_card_in_cards(fs, i);
    let head = PAGE_HEAD@ + PAGE_STYLE@ + PAGE_TITLE@ + GALLERY_OPEN@;
    lemma_occurs_mid(head, cards(fs), PAGE_CLOSE@);
    assert(head + cards(fs) + PAGE_CLOSE@ =~= gallery_page(Some(fs)));
    lemma_occurs_trans(card(fs[i]), cards(fs), gallery_page(Some(fs)));
    lemma_occurs_trans(x, card(fs[i]), gallery_page(Some(fs)));
}

/// In the gallery page, the card of every listed image `f` links to and
/// shows `/images/f`: the first link and the image read
/// `<a href="/images/f" target="_blank"> <img src="/images/f" alt="f" loading="lazy" />`,
/// and the second link reads
/// `<a href="/images/f" target="_blank">Ver Tamaño Completo<br><small>f</small></a>`.
pub proof fn lemma_gallery_links_serve_images(fs: Seq<Seq<char>>, i: int)
    requires
        0 <= i < fs.len(),
    ensures
        occurs_in(
            "<a href=\""@ + "/images/"@ + fs[i] + "\" target=\"_blank\">
                                <img src=\""@ + "/images/"@ + fs[i] + "\" alt=\""@ + fs[i] + "\" loading=\"lazy\" />"@,
            gallery_page(Some(fs)),
        ),
        occurs_in(
            "<a href=\""@ + "/images/"@ + fs[i] + "\" target=\"_blank\">Ver Tamaño Completo<br><small>"@ + fs[i] + "</small></a>"@,
            gallery_page(Some(fs)),
        ),
{
    let f = fs[i];
    let u = "/images/"@ + f;
    reveal_strlit("<a href=\"");
    reveal_strlit("/images/");
    reveal_strlit("\" target=\"_blank\">
                                <img src=\"");
    reveal_strlit("\" alt=\"");
    reveal_strlit("\" loading=\"lazy\" />");
    reveal_strlit("\" target=\"_blank\">Ver Tamaño Completo<br><small>");
    reveal_strlit("</small></a>");
    reveal_strlit("<div class=\"card\">
                            ");
    reveal_strlit("
                            </a>
                            ");
    reveal_strlit("
                        </div>");
    reveal_strlit("<div class=\"card\">
                            <a href=\"");
    reveal_strlit("\" loading=\"lazy\" />
                            </a>
                            <a href=\"");
    reveal_strlit("</small></a>
                        </div>");
    assert(CARD_OPEN@ =~= "<div class=\"card\">
                            "@ + "<a href=\""@);
    assert(CARD_AFTER_ALT@ =~= "\" loading=\"lazy\" />"@ + "
                            </a>
                            "@ + "<a href=\""@);
    assert(CARD_CLOSE@ =~= "</small></a>"@ + "
                        </div>"@);
    assert(IMAGES_PREFIX@ =~= "/images/"@);
    assert(CARD_AFTER_LINK@ =~= "\" target=\"_blank\">
                                <img src=\""@);
    assert(CARD_AFTER_SRC@ =~= "\" alt=\""@);
    assert(CARD_AFTER_SECOND_LINK@ =~= "\" target=\"_blank\">Ver Tamaño Completo<br><small>"@);
    let l1 = "<a href=\""@ + "/images/"@ + f + "\" target=\"_blank\">
                                <img src=\""@ + "/images/"@ + f + "\" alt=\""@ + f + "\" loading=\"lazy\" />"@;
    let l2 = "<a href=\""@ + "/images/"@ + f + "\" target=\"_blank\">Ver Tamaño Completo<br><small>"@ + f + "</small></a>"@;
    let c = card(f);
    let p1 = "<div class=\"card\">
                            "@;
    let s1 = "
                            </a>
                            "@ + "<a href=\""@ + u + "\" target=\"_blank\">Ver Tamaño Completo<br><small>"@ + f + CARD_CLOSE@;
    assert(c =~= p1 + l1 + s1);
    lemma_occurs_mid(p1, l1, s1);
    lemma_in_page(fs, i, l1);
    let p2 = CARD_OPEN@ + u + CARD_AFTER_LINK@ + u + CARD_AFTER_SRC@ + f + "\" loading=\"lazy\" />"@ + "
                            </a>
                            "@;
    let s2 = "
                        </div>"@;
    assert(c =~= p2 + l2 + s2);
    lemma_occurs_mid(p2, l2, s2);
    lemma_in_page(fs, i, l2);
}

} // verus!
