//! The image records the favorites feed yields. Every field is a plain
//! value; the content hash is the image's identity for deduplication.

use vstd::prelude::*;

verus! {

/// The preview renditions of an image, by size.
pub struct Representations {
    pub small: String,
    pub medium: String,
    pub large: String,
}

/// The mathematical value of the preview renditions.
pub ghost struct ReprView {
    pub small: Seq<char>,
    pub medium: Seq<char>,
    pub large: Seq<char>,
}

impl View for Representations {
    type V = ReprView;

    open spec fn view(&self) -> ReprView {
        ReprView { small: self.small@, medium: self.medium@, large: self.large@ }
    }
}

impl Clone for Representations {
    fn clone(&self) -> (r: Self)
        ensures
            r@ == self@,
    {
        Representations {
            small: self.small.clone(),
            medium: self.medium.clone(),
            large: self.large.clone(),
        }
    }
}

/// One image of the favorites feed. `sha512_hash` is its content hash,
/// the stable identity used for deduplication; the feed-assigned `id` only
/// names the image on the source site.
pub struct ImageResponse {
    pub id: i64,
    pub mime_type: String,
    pub image: String,
    pub representations: Representations,
    pub tags: String,
    pub source_url: String,
    pub sha512_hash: String,
}

/// The mathematical value of one image record.
pub ghost struct ImageView {
    pub id: int,
    pub mime_type: Seq<char>,
    pub image: Seq<char>,
    pub representations: ReprView,
    pub tags: Seq<char>,
    pub source_url: Seq<char>,
    pub sha512_hash: Seq<char>,
}

impl View for ImageResponse {
    type V = ImageView;

    open spec fn view(&self) -> ImageView {
        ImageView {
            id: self.id as int,
            mime_type: self.mime_type@,
            image: self.image@,
            representations: self.representations@,
            tags: self.tags@,
            source_url: self.source_url@,
            sha512_hash: self.sha512_hash@,
        }
    }
}

impl Clone for ImageResponse {
    fn clone(&self) -> (r: Self)
        ensures
            r@ == self@,
    {
        ImageResponse {
            id: self.id,
            mime_type: self.mime_type.clone(),
            image: self.image.clone(),
            representations: self.representations.clone(),
            tags: self.tags.clone(),
            source_url: self.source_url.clone(),
            sha512_hash: self.sha512_hash.clone(),
        }
    }
}

/// The views of a list of image records, in order.
pub open spec fn imgs_view(v: Seq<ImageResponse>) -> Seq<ImageView> {
    Seq::new(v.len(), |i: int| v[i]@)
}

/// The favorites feed reply: the list of images under its `search` key.
pub struct Response {
    pub search: Vec<ImageResponse>,
}

} // verus!
