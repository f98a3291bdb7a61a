pub mod device;
pub mod pipeline;
pub mod swapchain;
pub mod texture;
