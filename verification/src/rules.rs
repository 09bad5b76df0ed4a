pub mod html;
